use lib::asset_ids::{calc_id_for_asset, AssetEntry};
use lib::script_labels::SkyliteProcError;

fn entry(stem: &str, shown: &str) -> Result<AssetEntry, String> {
    Ok(AssetEntry { stem: stem.to_owned(), shown: shown.to_owned() })
}

#[test]
fn test_calc_id_for_asset() {
    // The files that "test_?.scm" lists, in order.
    let group1 = vec![entry("test_1", "\"/tmp/t/test_1.scm\""), entry("test_2", "\"/tmp/t/test_2.scm\"")];

    // Test different casings
    assert_eq!(calc_id_for_asset(&group1, "test_1").unwrap(), 0);
    assert_eq!(calc_id_for_asset(&group1, "TEST_1").unwrap(), 0);
    assert_eq!(calc_id_for_asset(&group1, "test-2").unwrap(), 1);

    // Test name not matched by glob
    assert!(calc_id_for_asset(&group1, "asset").is_err());

    // Test ambiguous name: the files that "**/asset.scm" lists.
    let group2 = vec![entry("asset", "\"/tmp/t/asset.scm\""), entry("asset", "\"/tmp/t/sub/asset.scm\"")];
    assert!(calc_id_for_asset(&group2, "asset").is_err());
}

#[test]
fn asset_id_errors_say_what_went_wrong() {
    let group = vec![entry("asset", "\"a.scm\""), entry("other", "\"o.scm\""), entry("Asset", "\"b.scm\"")];
    match calc_id_for_asset(&group, "asset") {
        Err(SkyliteProcError::DataError(m)) => {
            assert_eq!(m, "Name asset is ambiguous; both \"a.scm\" and \"b.scm\" match")
        }
        _ => panic!("expected an ambiguity"),
    }
    match calc_id_for_asset(&group[..2], "missing") {
        Err(SkyliteProcError::DataError(m)) => assert_eq!(m, "Name not found: missing"),
        _ => panic!("expected a missing name"),
    }
    let unlisted = vec![entry("other", "\"o.scm\""), Err("permission denied".to_owned()), entry("asset", "\"a.scm\"")];
    match calc_id_for_asset(&unlisted, "asset") {
        Err(SkyliteProcError::OtherError(m)) => assert_eq!(m, "IO Error: permission denied"),
        _ => panic!("expected an IO error"),
    }
    assert_eq!(calc_id_for_asset(&group[1..], "OTHER").unwrap(), 0);
}
