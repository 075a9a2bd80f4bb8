use wrpc::invocation::{
    arguments, parameters, placeholder_results, served_functions, target, Export, InstanceExport,
    Served, Target,
};
use wrpc::value::Val;

fn item(name: &str, is_function: bool) -> InstanceExport {
    InstanceExport {
        name: name.to_string(),
        is_function,
    }
}

fn served(instance: &str, function: &str) -> Served {
    Served {
        instance: instance.to_string(),
        function: function.to_string(),
    }
}

#[test]
fn functions_of_instances_are_served() {
    let exports = vec![
        Export {
            name: "run".to_string(),
            instance: None,
        },
        Export {
            name: "test:a/b".to_string(),
            instance: Some(vec![item("f", true), item("t", false), item("g", true)]),
        },
        Export {
            name: "test:a/c".to_string(),
            instance: Some(vec![item("f", true)]),
        },
    ];
    assert_eq!(
        served_functions(&exports),
        vec![
            served("test:a/b", "f"),
            served("test:a/b", "g"),
            served("test:a/c", "f"),
        ]
    );
    assert_eq!(served_functions(&vec![]), vec![]);
}

#[test]
fn invocations_have_a_target() {
    assert_eq!(target("", "run"), Target::Root);
    assert_eq!(target("test:a/b", "run"), Target::Instance);
    assert_eq!(
        target("wasi:http/incoming-handler", "handle"),
        Target::HttpHandler
    );
    assert_eq!(
        target("wasi:http/incoming-handler", "other"),
        Target::Instance
    );
    assert_eq!(target("", "handle"), Target::Root);
}

#[test]
fn arguments_name_what_is_invoked() {
    assert_eq!(arguments("", "run"), vec!["run".to_string()]);
    assert_eq!(
        arguments("test:a/b", "run"),
        vec!["test:a/b".to_string(), "run".to_string()]
    );
}

#[test]
fn no_more_parameters_are_passed_than_all_agree_on() {
    assert_eq!(parameters(vec![1, 2, 3], 3, 3), vec![1, 2, 3]);
    assert_eq!(parameters(vec![1, 2, 3], 2, 3), vec![1, 2]);
    assert_eq!(parameters(vec![1, 2, 3], 3, 1), vec![1]);
    assert_eq!(parameters(vec![1], 3, 3), vec![1]);
}

#[test]
fn results_start_as_false() {
    assert_eq!(
        placeholder_results(2),
        vec![Val::Bool(false), Val::Bool(false)]
    );
    assert_eq!(placeholder_results(0), vec![]);
}
