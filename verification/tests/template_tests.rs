use bak::error::Error;
use bak::template::PathComponent;
use bak::template::Template;

fn name(s: &str) -> Vec<u8> {
    s.as_bytes().to_vec()
}

fn normal(s: &str) -> PathComponent {
    PathComponent::Normal(name(s))
}

#[test]
fn root() {
    let r = Template::new(vec![PathComponent::RootDir]);
    assert!(matches!(r, Err(Error::Root)));
}

#[test]
fn simple() {
    let path = vec![PathComponent::RootDir, normal("tmp"), normal("foo")];
    let template = Template::new(vec![PathComponent::RootDir, normal("tmp"), normal("foo")])
        .unwrap();
    assert_eq!(template.source, path);
    assert_eq!(
        template.directory,
        vec![PathComponent::RootDir, normal("tmp")]
    );
    assert_eq!(template.filename, name("foo"));
    assert_eq!(template.source(), &path);
}

#[test]
fn unexpected_final_component() {
    let r = Template::new(vec![PathComponent::RootDir, PathComponent::ParentDir]);
    assert!(matches!(r, Err(Error::UnexpectedFinalPathComponent)));
    let r = Template::new(vec![PathComponent::RootDir, normal("a"), PathComponent::CurDir]);
    assert!(matches!(r, Err(Error::UnexpectedFinalPathComponent)));
}

#[test]
fn error_messages() {
    assert_eq!(Error::Root.message(), "cannot move aside root directory");
    assert_eq!(Error::UnexpectedFinalPathComponent.message(), "");
}
