use devspin::{shutdown_order, sort_services_by_dependencies, HealthCheck, ServiceSpec, ToolError};

fn spec(name: &str, deps: &[&str]) -> ServiceSpec {
    ServiceSpec {
        name: name.to_string(),
        command: format!("run {}", name),
        working_dir: None,
        dependencies: deps.iter().map(|d| d.to_string()).collect(),
        health_check: HealthCheck::NoCheck,
    }
}

fn names(services: &[ServiceSpec], order: &[usize]) -> Vec<String> {
    order.iter().map(|&i| services[i].name.clone()).collect()
}

#[test]
fn chain_submitted_backwards_starts_dependencies_first() {
    let services = vec![spec("web", &["api"]), spec("api", &["db"]), spec("db", &[])];
    let order = sort_services_by_dependencies(&services).unwrap();
    assert_eq!(names(&services, &order), vec!["db", "api", "web"]);
    let down = shutdown_order(&order);
    assert_eq!(names(&services, &down), vec!["web", "api", "db"]);
}

#[test]
fn independent_services_keep_input_order() {
    let services = vec![spec("a", &[]), spec("b", &[]), spec("c", &[])];
    let order = sort_services_by_dependencies(&services).unwrap();
    assert_eq!(order, vec![0, 1, 2]);
}

#[test]
fn depth_first_post_order_from_each_service() {
    let services = vec![spec("a", &["c"]), spec("b", &[]), spec("c", &[])];
    let order = sort_services_by_dependencies(&services).unwrap();
    assert_eq!(names(&services, &order), vec!["c", "a", "b"]);
}

#[test]
fn diamond_places_every_dependency_first() {
    let services = vec![
        spec("app", &["api", "worker"]),
        spec("api", &["db", "cache"]),
        spec("worker", &["db"]),
        spec("db", &[]),
        spec("cache", &[]),
    ];
    let order = sort_services_by_dependencies(&services).unwrap();
    assert_eq!(names(&services, &order), vec!["db", "cache", "api", "worker", "app"]);
    let position = |n: &str| order.iter().position(|&i| services[i].name == n).unwrap();
    for s in &services {
        for d in &s.dependencies {
            assert!(position(d) < position(&s.name));
        }
    }
}

#[test]
fn same_input_gives_same_order() {
    let services = vec![spec("x", &["z"]), spec("y", &["x"]), spec("z", &[])];
    let first = sort_services_by_dependencies(&services).unwrap();
    let second = sort_services_by_dependencies(&services).unwrap();
    assert_eq!(first, second);
}

#[test]
fn unknown_dependency_is_ignored() {
    let services = vec![spec("api", &["ghost"]), spec("db", &[])];
    let order = sort_services_by_dependencies(&services).unwrap();
    assert_eq!(order, vec![0, 1]);
}

#[test]
fn cycle_is_a_configuration_error() {
    let services = vec![spec("a", &["b"]), spec("b", &["c"]), spec("c", &["a"])];
    let r = sort_services_by_dependencies(&services);
    assert!(matches!(r, Err(ToolError::DependencyCycle(_))));
    assert_eq!(r.unwrap_err().kind(), devspin::ErrorKind::Configuration);
}

#[test]
fn self_dependency_is_a_cycle() {
    let services = vec![spec("a", &["a"])];
    assert!(matches!(sort_services_by_dependencies(&services), Err(ToolError::DependencyCycle(n)) if n == "a"));
}

#[test]
fn repeated_name_is_refused() {
    let services = vec![spec("db", &[]), spec("db", &[])];
    assert!(matches!(sort_services_by_dependencies(&services), Err(ToolError::DuplicateService(n)) if n == "db"));
}

#[test]
fn empty_service_list_gives_empty_order() {
    let services: Vec<ServiceSpec> = Vec::new();
    assert_eq!(sort_services_by_dependencies(&services).unwrap(), Vec::<usize>::new());
}
