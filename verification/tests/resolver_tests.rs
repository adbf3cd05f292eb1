use lyra::resolver::Asset;
use lyra::resolver::normalize_path;
use lyra::resolver::ResolveError;
use lyra::resolver::ResourceResolver;

fn asset(path: &str, contents: &[u8]) -> Asset {
    Asset {
        path: path.as_bytes().to_vec(),
        contents: contents.to_vec(),
    }
}

fn resolver() -> ResourceResolver {
    ResourceResolver::new(
        b"lyra://".to_vec(),
        vec![
            asset("index.html", b"<html></html>"),
            asset("app.js", b"console.log(1)"),
        ],
    )
}

#[test]
fn normalize_strips_scheme_and_trailing_slash() {
    let r = normalize_path(&b"lyra://index.html/".to_vec(), &b"lyra://".to_vec());
    assert_eq!(r, b"index.html".to_vec());
}

#[test]
fn normalize_without_scheme_only_strips_trailing_slash() {
    let r = normalize_path(&b"assets/app.js/".to_vec(), &b"lyra://".to_vec());
    assert_eq!(r, b"assets/app.js".to_vec());
    let plain = normalize_path(&b"app.js".to_vec(), &b"lyra://".to_vec());
    assert_eq!(plain, b"app.js".to_vec());
}

#[test]
fn normalize_strips_only_one_trailing_slash() {
    let r = normalize_path(&b"dir//".to_vec(), &b"lyra://".to_vec());
    assert_eq!(r, b"dir/".to_vec());
}

#[test]
fn resolve_serves_embedded_asset() {
    let res = resolver();
    let got = res.resolve(&b"lyra://index.html".to_vec());
    match got {
        Ok(contents) => assert_eq!(contents, &b"<html></html>".to_vec()),
        Err(_) => panic!("expected the asset"),
    }
}

#[test]
fn resolve_normalizes_before_lookup() {
    let res = resolver();
    let got = res.resolve(&b"lyra://app.js/".to_vec());
    match got {
        Ok(contents) => assert_eq!(contents, &b"console.log(1)".to_vec()),
        Err(_) => panic!("expected the asset"),
    }
}

#[test]
fn resolve_missing_asset_reports_normalized_path() {
    let res = resolver();
    let got = res.resolve(&b"lyra://missing.css/".to_vec());
    match got {
        Ok(_) => panic!("expected a miss"),
        Err(ResolveError::ResourceNotFound(path)) => {
            assert_eq!(path, b"missing.css".to_vec());
        }
    }
}
