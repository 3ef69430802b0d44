use tfocus::executor::addresses;
use tfocus::project::{SourceFile, TerraformProject};
use tfocus::selection::{create_selection_items, number_entries, parse_selection};
use tfocus::selector::{Key, Phase, Selector};
use tfocus::types::{Resource, Target};

fn project() -> TerraformProject {
    let sources = vec![SourceFile {
        path: "main.tf".to_string(),
        content: "resource \"aws_instance\" \"web\" {}\nmodule \"net\" {}\n".to_string(),
    }];
    TerraformProject::from_sources(&sources).unwrap()
}

fn picker(project: &TerraformProject) -> Selector {
    let entries = number_entries(
        &project.get_unique_files(),
        &project.get_modules(),
        &project.get_all_resources(),
    );
    Selector::new(create_selection_items(&entries))
}

#[test]
fn selecting_the_module_addresses_the_module() {
    let project = project();
    let target = parse_selection("m:net").unwrap();
    assert_eq!(target, Target::Module("net".to_string()));
    let resources = project.get_resources_by_target(&target);
    assert_eq!(addresses(&resources), vec!["module.net".to_string()]);
}

#[test]
fn picking_by_typed_name_addresses_the_module() {
    let project = project();
    let mut selector = picker(&project);
    assert_eq!(
        selector.render(),
        vec![
            "> ".to_string(),
            ">    1 [File]          main.tf".to_string(),
            "     2 [Module]        net".to_string(),
            "     3 [Resource]      aws_instance.web".to_string(),
            "     4 [Module]        module.net".to_string(),
        ]
    );
    for c in "net".chars() {
        selector = selector.handle_key(Key::Char(c));
    }
    assert_eq!(selector.visible(), vec![1, 3]);
    selector = selector.handle_key(Key::Enter);
    assert_eq!(selector.phase(), Phase::Committed);
    let payload = selector.result().unwrap();
    assert_eq!(payload, "m:net");
    let resources = project.get_resources_by_target(&parse_selection(&payload).unwrap());
    assert_eq!(resources, vec![Resource::module("net")]);
    assert_eq!(addresses(&resources), vec!["module.net".to_string()]);
}

#[test]
fn picking_the_file_addresses_all_it_declares() {
    let project = project();
    let selector = picker(&project).handle_key(Key::Enter);
    let payload = selector.result().unwrap();
    assert_eq!(payload, "f:main.tf");
    let resources = project.get_resources_by_target(&parse_selection(&payload).unwrap());
    assert_eq!(
        addresses(&resources),
        vec!["aws_instance.web".to_string(), "module.net".to_string()]
    );
}

#[test]
fn giving_up_addresses_nothing() {
    let project = project();
    let selector = picker(&project).handle_key(Key::Char('n')).handle_key(Key::Escape);
    assert_eq!(selector.phase(), Phase::Cancelled);
    assert_eq!(selector.result(), None);
}
