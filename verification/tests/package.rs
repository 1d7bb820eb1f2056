use survey::package::{Package, PackageErr};
use survey::scan::Branch;

#[test]
fn package_name_version() {
    let p = Package::new("openssl", "1.0.2d");
    assert_eq!("openssl", p.pname());
    assert_eq!("1.0.2d", p.version());
}

#[test]
fn format() {
    let p = Package::new("binutils", "2.32.1");
    assert_eq!("binutils-2.32.1", p.as_str());
}

#[test]
fn parse() {
    assert_eq!(
        Package::new("exiv2", "0.27.1"),
        Package::from_str("exiv2-0.27.1").unwrap()
    );
    assert!(Package::from_str("exiv2").is_err());
    assert!(Package::from_str("linux-kernel").is_err());
    assert_eq!(
        Package::new("linux-kernel", "5.2"),
        Package::from_str("linux-kernel-5.2").unwrap()
    );
}

#[test]
fn parse_splits_at_first_hyphen_digit() {
    let p = Package::from_str("openssl-1.0.2d").unwrap();
    assert_eq!("openssl", p.pname());
    assert_eq!("1.0.2d", p.version());
    assert_eq!("openssl-1.0.2d", p.as_str());
    // a name with hyphens but no hyphen-digit before the true boundary
    let q = Package::from_str("libxml2-utils-2.9").unwrap();
    assert_eq!("libxml2-utils", q.pname());
    assert_eq!("2.9", q.version());
}

#[test]
fn parse_without_boundary_fails() {
    match Package::from_str("no-version-here") {
        Err(PackageErr::Version { name }) => assert_eq!("no-version-here", name),
        Ok(_) => panic!("expected a missing version boundary"),
    }
}

#[test]
fn construct_parse_round_trip() {
    let built = Package::new("linux-kernel", "5.2");
    let reparsed = Package::from_str(built.as_str()).unwrap();
    assert_eq!("linux-kernel", reparsed.pname());
    assert_eq!("5.2", reparsed.version());
    // a version that does not start with a digit leaves no recognizable
    // boundary, so the round trip does not apply there
    let odd = Package::new("foo", "bar");
    assert!(Package::from_str(odd.as_str()).is_err());
}

#[test]
fn branch_spec_parsing() {
    let pinned = Branch::parse("nixos-unstable=55f4cd48");
    assert_eq!("nixos-unstable", pinned.name);
    assert_eq!(Some("55f4cd48".to_string()), pinned.rev);
    let plain = Branch::parse("nixos-18.09");
    assert_eq!("nixos-18.09", plain.name);
    assert!(plain.rev.is_none());
}
