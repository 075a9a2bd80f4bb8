use wrpc::workload::{
    check_world, locate, locate_parsed, prepare, url_scheme, Encoding, Location, Preparation,
    Retrieval, WitKind, Workload, WorldError,
};

const CORE: [u8; 8] = [0, 0x61, 0x73, 0x6d, 1, 0, 0, 0];
const COMPONENT: [u8; 8] = [0, 0x61, 0x73, 0x6d, 0x0d, 0, 1, 0];

#[test]
fn names_that_start_with_a_dot_are_paths() {
    assert_eq!(locate("./app.wasm"), Location::Relative);
    assert_eq!(locate("../app.wasm"), Location::Relative);
    assert_eq!(
        locate_parsed(".", Some("file:///x".to_string())),
        Location::Relative
    );
}

#[test]
fn other_names_are_urls() {
    assert_eq!(
        locate("HTTP://Example.com"),
        Location::Url(Workload::Url("http://example.com/".to_string()))
    );
    assert_eq!(
        locate("file:///srv/app.wasm"),
        Location::Url(Workload::Url("file:///srv/app.wasm".to_string()))
    );
    assert_eq!(locate("app.wasm"), Location::Invalid);
    assert_eq!(locate(""), Location::Invalid);
    assert_eq!(locate_parsed("app.wasm", None), Location::Invalid);
}

#[test]
fn schemes_end_at_the_first_colon() {
    assert_eq!(url_scheme("https://localhost:8080/"), "https");
    assert_eq!(url_scheme("none"), "none");
    assert_eq!(url_scheme(":"), "");
}

#[test]
fn workloads_are_retrieved_as_their_scheme_says() {
    let retrieval = |href: &str| Workload::Url(href.to_string()).retrieval();
    assert_eq!(
        retrieval("file:///a.wasm"),
        Retrieval::File("file:///a.wasm".to_string())
    );
    assert_eq!(
        retrieval("http://a/b"),
        Retrieval::Http("http://a/b".to_string())
    );
    assert_eq!(
        retrieval("https://a/b"),
        Retrieval::Http("https://a/b".to_string())
    );
    assert_eq!(
        retrieval("oci://a/b"),
        Retrieval::Unsupported("oci".to_string())
    );
    assert_eq!(
        Workload::Binary(vec![1, 2]).retrieval(),
        Retrieval::Ready(vec![1, 2])
    );
}

#[test]
fn only_core_modules_are_encoded() {
    assert_eq!(prepare(COMPONENT.to_vec()), Preparation::Ready(COMPONENT.to_vec()));
    assert_eq!(prepare(vec![]), Preparation::Ready(vec![]));
    assert_eq!(prepare(CORE[..7].to_vec()), Preparation::Ready(CORE[..7].to_vec()));
    let mut module = CORE.to_vec();
    module.push(0xff);
    assert_eq!(
        prepare(module.clone()),
        Preparation::Encode(Encoding {
            validate: true,
            module,
            adapter_name: "wasi_snapshot_preview1".to_string(),
        })
    );
}

#[test]
fn only_components_are_run() {
    assert_eq!(check_world(WitKind::Component), Ok(()));
    assert_eq!(check_world(WitKind::Package), Err(WorldError::WitPackage));
    assert_eq!(check_world(WitKind::Invalid), Err(WorldError::Undecodable));
}
