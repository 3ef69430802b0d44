use tfocus::project::{is_config_file, ResourceEntry, SourceFile, TerraformProject};
use tfocus::types::{Resource, Target, TfocusError};

fn source(path: &str, content: &str) -> SourceFile {
    SourceFile { path: path.to_string(), content: content.to_string() }
}

fn sample() -> TerraformProject {
    let sources = vec![
        source("network/vpc.tf", "module \"net\" {}\nresource \"aws_vpc\" \"main\" {}\n"),
        source("README.md", "resource \"not\" \"scanned\" {}"),
        source("main.tf", "resource \"aws_instance\" \"web\" {}\nmodule \"net\" {}\nmodule \"db\" {}\n"),
        source("empty.tf", "# nothing here\n"),
        source("app/main.tf", "resource \"aws_instance\" \"web\" {}\n"),
    ];
    match TerraformProject::from_sources(&sources) {
        Ok(project) => project,
        Err(e) => panic!("{:?}", e),
    }
}

#[test]
fn config_files_end_in_tf() {
    assert!(is_config_file("main.tf"));
    assert!(is_config_file("a.tf"));
    assert!(is_config_file("dir/sub/vars.tf"));
    assert!(is_config_file("./x.tf"));
    assert!(!is_config_file("main.tf.bak"));
    assert!(!is_config_file("main.tfvars"));
    assert!(!is_config_file("README.md"));
    assert!(!is_config_file(".tf"));
    assert!(!is_config_file("dir/.tf"));
    assert!(!is_config_file("tf"));
    assert!(!is_config_file(""));
    assert!(!is_config_file("main.TF"));
}

#[test]
fn no_config_file_is_an_error() {
    let sources = vec![
        source("README.md", "resource \"a\" \"b\" {}"),
        source("main.tf.bak", "resource \"a\" \"b\" {}"),
        source("notes/list.txt", ""),
        source(".tf", ""),
    ];
    match TerraformProject::from_sources(&sources) {
        Err(e) => assert_eq!(e, TfocusError::NoTerraformFiles),
        Ok(_) => panic!("a project was built"),
    }
}

#[test]
fn empty_directory_is_an_error() {
    let sources: Vec<SourceFile> = Vec::new();
    assert!(matches!(
        TerraformProject::from_sources(&sources),
        Err(TfocusError::NoTerraformFiles)
    ));
}

#[test]
fn config_file_without_declarations_makes_a_project() {
    let sources = vec![source("main.tf", "")];
    let project = TerraformProject::from_sources(&sources).unwrap();
    assert_eq!(project.get_files(), vec!["main.tf".to_string()]);
    assert_eq!(project.get_unique_files(), Vec::<String>::new());
    assert_eq!(project.get_modules(), Vec::<String>::new());
    assert_eq!(project.get_all_resources(), Vec::<Resource>::new());
}

#[test]
fn files_are_ordered_by_path() {
    let project = sample();
    assert_eq!(
        project.get_files(),
        vec![
            "app/main.tf".to_string(),
            "empty.tf".to_string(),
            "main.tf".to_string(),
            "network/vpc.tf".to_string(),
        ]
    );
}

#[test]
fn order_of_sources_does_not_matter() {
    let forward = vec![
        source("a.tf", "module \"x\" {}"),
        source("b.tf", "module \"y\" {}"),
        source("ab.tf", "module \"z\" {}"),
    ];
    let backward = vec![
        source("ab.tf", "module \"z\" {}"),
        source("b.tf", "module \"y\" {}"),
        source("a.tf", "module \"x\" {}"),
    ];
    let one = TerraformProject::from_sources(&forward).unwrap();
    let two = TerraformProject::from_sources(&backward).unwrap();
    assert_eq!(one.get_files(), vec!["a.tf".to_string(), "ab.tf".to_string(), "b.tf".to_string()]);
    assert_eq!(one.get_files(), two.get_files());
    assert_eq!(one.get_all_resources(), two.get_all_resources());
    assert_eq!(one.get_modules(), vec!["x".to_string(), "z".to_string(), "y".to_string()]);
}

#[test]
fn unique_files_lists_files_that_declare() {
    let project = sample();
    assert_eq!(
        project.get_unique_files(),
        vec!["app/main.tf".to_string(), "main.tf".to_string(), "network/vpc.tf".to_string()]
    );
}

#[test]
fn all_resources_go_file_by_file() {
    let project = sample();
    assert_eq!(
        project.get_all_resources(),
        vec![
            Resource::new("aws_instance", "web"),
            Resource::new("aws_instance", "web"),
            Resource::module("net"),
            Resource::module("db"),
            Resource::module("net"),
            Resource::new("aws_vpc", "main"),
        ]
    );
}

#[test]
fn declared_resource_is_listed() {
    let sources = vec![source("x.tf", "resource \"google_sql_database\" \"main\" {}")];
    let project = TerraformProject::from_sources(&sources).unwrap();
    let all = project.get_all_resources();
    assert!(all.iter().any(|r| r.resource_type == "google_sql_database"
        && r.name == "main"
        && !r.is_module));
}

#[test]
fn module_called_in_two_files_is_listed_once() {
    let project = sample();
    let modules = project.get_modules();
    assert_eq!(modules, vec!["net".to_string(), "db".to_string()]);
    assert_eq!(modules.iter().filter(|m| m.as_str() == "net").count(), 1);
}

#[test]
fn file_target_gives_what_the_file_declares() {
    let project = sample();
    assert_eq!(
        project.get_resources_by_target(&Target::File("main.tf".to_string())),
        vec![
            Resource::new("aws_instance", "web"),
            Resource::module("net"),
            Resource::module("db"),
        ]
    );
    assert_eq!(
        project.get_resources_by_target(&Target::File("network/vpc.tf".to_string())),
        vec![Resource::module("net"), Resource::new("aws_vpc", "main")]
    );
}

#[test]
fn file_without_declarations_resolves_to_nothing() {
    let project = sample();
    assert_eq!(
        project.get_resources_by_target(&Target::File("empty.tf".to_string())),
        Vec::<Resource>::new()
    );
    assert_eq!(
        project.get_resources_by_target(&Target::File("missing.tf".to_string())),
        Vec::<Resource>::new()
    );
    assert_eq!(
        project.get_resources_by_target(&Target::File("README.md".to_string())),
        Vec::<Resource>::new()
    );
}

#[test]
fn module_target_gives_every_call_of_that_name() {
    let project = sample();
    assert_eq!(
        project.get_resources_by_target(&Target::Module("net".to_string())),
        vec![Resource::module("net"), Resource::module("net")]
    );
    assert_eq!(
        project.get_resources_by_target(&Target::Module("db".to_string())),
        vec![Resource::module("db")]
    );
    assert_eq!(
        project.get_resources_by_target(&Target::Module("web".to_string())),
        Vec::<Resource>::new()
    );
}

#[test]
fn resource_target_gives_every_match() {
    let project = sample();
    assert_eq!(
        project.get_resources_by_target(&Target::Resource(
            "aws_instance".to_string(),
            "web".to_string()
        )),
        vec![Resource::new("aws_instance", "web"), Resource::new("aws_instance", "web")]
    );
}

#[test]
fn resource_declared_once_resolves_to_one() {
    let project = sample();
    let found = project
        .get_resources_by_target(&Target::Resource("aws_vpc".to_string(), "main".to_string()));
    assert_eq!(found.len(), 1);
    assert_eq!(found, vec![Resource::new("aws_vpc", "main")]);
}

#[test]
fn resource_target_does_not_match_a_module_call() {
    let project = sample();
    assert_eq!(
        project.get_resources_by_target(&Target::Resource("".to_string(), "net".to_string())),
        Vec::<Resource>::new()
    );
    assert_eq!(
        project.get_resources_by_target(&Target::Resource(
            "aws_instance".to_string(),
            "main".to_string()
        )),
        Vec::<Resource>::new()
    );
}

#[test]
fn building_twice_gives_the_same() {
    let one = sample();
    let two = sample();
    assert_eq!(one.get_files(), two.get_files());
    assert_eq!(one.get_unique_files(), two.get_unique_files());
    assert_eq!(one.get_modules(), two.get_modules());
    assert_eq!(one.get_all_resources(), two.get_all_resources());
}

#[test]
fn errors_have_a_message() {
    assert_eq!(TfocusError::NoTerraformFiles.message(), "No Terraform files found");
    assert_eq!(TfocusError::InvalidTargetSelection.message(), "Invalid target selection");
}

#[test]
fn files_are_ordered_as_texts_are() {
    let mut paths: Vec<String> = [
        "b.tf", "a.tf", "ab.tf", "a/b.tf", "a-b.tf", "a_b.tf", "A.tf", "Z.tf", "z.tf", "a.tf.tf",
        "\u{e9}.tf", "e.tf", "\u{1f600}.tf", "1.tf", "10.tf", "2.tf", "./a.tf", "aa/a.tf", "a/a/a.tf",
    ]
    .iter()
    .map(|p| p.to_string())
    .collect();
    let sources: Vec<SourceFile> = paths.iter().map(|p| source(p, "")).collect();
    let project = TerraformProject::from_sources(&sources).unwrap();
    paths.sort();
    assert_eq!(project.get_files(), paths);
}

#[test]
fn files_of_equal_path_keep_their_order() {
    let sources = vec![
        source("b.tf", "module \"one\" {}"),
        source("a.tf", "module \"two\" {}"),
        source("b.tf", "module \"three\" {}"),
        source("a.tf", "module \"four\" {}"),
    ];
    let project = TerraformProject::from_sources(&sources).unwrap();
    assert_eq!(
        project.get_files(),
        vec!["a.tf".to_string(), "a.tf".to_string(), "b.tf".to_string(), "b.tf".to_string()]
    );
    assert_eq!(
        project.get_modules(),
        vec!["two".to_string(), "four".to_string(), "one".to_string(), "three".to_string()]
    );
    assert_eq!(project.get_unique_files(), vec!["a.tf".to_string(), "b.tf".to_string()]);
}

#[test]
fn catalog_names_the_owning_file() {
    let sources = vec![
        source("b.tf", "resource \"t\" \"n\" {}"),
        source("a.tf", "module \"m\" {}\nresource \"t\" \"n\" {}"),
    ];
    let project = TerraformProject::from_sources(&sources).unwrap();
    assert_eq!(
        project.get_entries(),
        vec![
            ResourceEntry { file: "a.tf".to_string(), resource: Resource::module("m") },
            ResourceEntry { file: "a.tf".to_string(), resource: Resource::new("t", "n") },
            ResourceEntry { file: "b.tf".to_string(), resource: Resource::new("t", "n") },
        ]
    );
}
