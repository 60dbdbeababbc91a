use audio2face::audio2face::identity::{Audio2FaceIdentity, BundlePaths};

#[test]
fn shared_files_sit_in_the_root() {
    let p = BundlePaths::new("/opt/a2f", Audio2FaceIdentity::James);
    assert_eq!(p.network_onnx(), "/opt/a2f/network.onnx");
    assert_eq!(p.network_info(), "/opt/a2f/network_info.json");
}

#[test]
fn identity_files_carry_the_suffix() {
    let p = BundlePaths::new("/opt/a2f", Audio2FaceIdentity::Mark);
    assert_eq!(p.bs_skin_npz(), "/opt/a2f/bs_skin_Mark.npz");
    assert_eq!(p.bs_skin_config(), "/opt/a2f/bs_skin_config_Mark.json");
    assert_eq!(p.model_data_npz(), "/opt/a2f/model_data_Mark.npz");
    assert_eq!(p.model_config(), "/opt/a2f/model_config_Mark.json");
}

#[test]
fn paths_join_like_the_standard_library() {
    for root in ["", "/", "a", "a/", "/opt/x", "/opt/x/"] {
        let p = BundlePaths::new(root, Audio2FaceIdentity::Claire);
        let joined = std::path::Path::new(root).join("network.onnx");
        assert_eq!(p.network_onnx(), joined.to_str().unwrap());
    }
}

#[test]
fn identities_have_their_slots() {
    assert_eq!(Audio2FaceIdentity::Claire.one_hot_index(), 0);
    assert_eq!(Audio2FaceIdentity::James.one_hot_index(), 1);
    assert_eq!(Audio2FaceIdentity::Mark.one_hot_index(), 2);
    assert_eq!(Audio2FaceIdentity::Claire.suffix(), "Claire");
    assert_eq!(Audio2FaceIdentity::James.suffix(), "James");
    assert_eq!(Audio2FaceIdentity::Mark.suffix(), "Mark");
    assert!(Audio2FaceIdentity::default() == Audio2FaceIdentity::Claire);
}
