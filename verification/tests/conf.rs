use config::Conf;
use config::directive::ParseError;

#[test]
fn conf_parses_a_document() {
    let conf = Conf::parse("server { listen 80; }\nworker 4;").unwrap();
    assert_eq!(conf.root.name, "root");
    assert_eq!(conf.root.args.len(), 0);
    assert_eq!(conf.root.directives.len(), 2);
    let server = &conf.root.directives[0];
    assert_eq!(server.name, "server");
    assert_eq!(server.directives.len(), 1);
    assert_eq!(server.directives[0].name, "listen");
    assert_eq!(server.directives[0].args, vec!["80"]);
    let worker = &conf.root.directives[1];
    assert_eq!(worker.name, "worker");
    assert_eq!(worker.args, vec!["4"]);
}

#[test]
fn conf_signals_unbalanced_blocks() {
    match Conf::parse("a;}") {
        Ok(_) => panic!("an unmatched close brace must fail the parse"),
        Err(e) => assert_eq!(e, ParseError::UnbalancedBlock),
    }
}

#[test]
fn conf_empty_document() {
    let conf = Conf::parse("").unwrap();
    assert_eq!(conf.root.name, "root");
    assert_eq!(conf.root.directives.len(), 0);
}
