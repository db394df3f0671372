use cerebro_gateway::paths::build_path;
use cerebro_gateway::paths::metrics_path_from_home;
use cerebro_gateway::paths::relative_from_root;
use cerebro_gateway::paths::safe_root_from_home;
use cerebro_gateway::paths::sanitize_relative_path;
use cerebro_gateway::paths::AbsPath;
use cerebro_gateway::GatewayError;

fn root() -> AbsPath {
    safe_root_from_home("/home/user").unwrap()
}

#[test]
fn safe_root_renders_under_home() {
    assert_eq!(root().render(), "/home/user/Documentos/CerebroProjects");
}

#[test]
fn metrics_path_renders_under_home() {
    let p = metrics_path_from_home("/home/user").unwrap();
    assert_eq!(p.render(), "/home/user/.cerebro/logs/metrics.jsonl");
}

#[test]
fn normal_relative_path_is_contained() {
    let r = root();
    let p = sanitize_relative_path(&r, "notes/todo.txt").unwrap();
    assert_eq!(p.render(), "/home/user/Documentos/CerebroProjects/notes/todo.txt");
    assert!(p.render().starts_with(&r.render()));
}

#[test]
fn current_dir_components_are_noops() {
    let r = root();
    let p = sanitize_relative_path(&r, "./a/./b").unwrap();
    assert_eq!(p.render(), "/home/user/Documentos/CerebroProjects/a/b");
}

#[test]
fn doubled_separators_collapse() {
    let r = root();
    let p = sanitize_relative_path(&r, "a//b///c").unwrap();
    assert_eq!(p.render(), "/home/user/Documentos/CerebroProjects/a/b/c");
}

#[test]
fn parent_inside_pops() {
    let r = root();
    let p = sanitize_relative_path(&r, "a/../b").unwrap();
    assert_eq!(p.render(), "/home/user/Documentos/CerebroProjects/b");
}

#[test]
fn escape_above_root_is_rejected() {
    let r = root();
    assert!(matches!(
        sanitize_relative_path(&r, "../escape"),
        Err(GatewayError::OutOfOrbit)
    ));
    assert!(matches!(
        sanitize_relative_path(&r, "a/../../b"),
        Err(GatewayError::OutOfOrbit)
    ));
    assert!(matches!(
        sanitize_relative_path(&r, "a/b/../../../c"),
        Err(GatewayError::OutOfOrbit)
    ));
}

#[test]
fn absolute_inside_root_is_stripped() {
    let r = root();
    let p = sanitize_relative_path(&r, "/home/user/Documentos/CerebroProjects/x/y").unwrap();
    assert_eq!(p.render(), "/home/user/Documentos/CerebroProjects/x/y");
}

#[test]
fn absolute_outside_root_is_rejected() {
    let r = root();
    assert!(matches!(
        sanitize_relative_path(&r, "/etc/passwd"),
        Err(GatewayError::OutOfOrbit)
    ));
    assert!(matches!(
        sanitize_relative_path(&r, "/home/user/elsewhere"),
        Err(GatewayError::OutOfOrbit)
    ));
}

#[test]
fn empty_and_dot_resolve_to_root() {
    let r = root();
    let p = sanitize_relative_path(&r, ".").unwrap();
    assert_eq!(p.render(), r.render());
    let q = sanitize_relative_path(&r, "").unwrap();
    assert_eq!(q.render(), r.render());
}

#[test]
fn build_path_absent_is_root() {
    let r = root();
    let p = build_path(&r, None).unwrap();
    assert_eq!(p.render(), r.render());
    let q = build_path(&r, Some("sub")).unwrap();
    assert_eq!(q.render(), "/home/user/Documentos/CerebroProjects/sub");
}

#[test]
fn relative_of_root_is_dot() {
    let r = root();
    let p = build_path(&r, None).unwrap();
    assert_eq!(relative_from_root(&r, &p).unwrap(), ".");
}

#[test]
fn relative_strips_root_prefix() {
    let r = root();
    let p = sanitize_relative_path(&r, "a/b/c.txt").unwrap();
    assert_eq!(relative_from_root(&r, &p).unwrap(), "a/b/c.txt");
}

#[test]
fn relative_of_non_descendant_is_rejected() {
    let r = root();
    let other = safe_root_from_home("/home/other").unwrap();
    assert!(matches!(
        relative_from_root(&r, &other),
        Err(GatewayError::OutOfOrbit)
    ));
}

#[test]
fn round_trip_is_stable() {
    let r = root();
    let p = sanitize_relative_path(&r, "a//b/./c/../d").unwrap();
    let rel = relative_from_root(&r, &p).unwrap();
    assert_eq!(rel, "a/b/d");
    let q = sanitize_relative_path(&r, &rel).unwrap();
    assert_eq!(q.render(), p.render());
    assert_eq!(relative_from_root(&r, &q).unwrap(), rel);
}
