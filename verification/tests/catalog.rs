use hmm_mapper::Chain;
use hmm_mapper::SequenceModel;
use hmm_mapper::vdjmodeler::VDJmodeler;

#[test]
fn chain_ids_are_stable() {
    assert_eq!(Chain::V.id(), 0);
    assert_eq!(Chain::D.id(), 1);
    assert_eq!(Chain::J.id(), 2);
}

#[test]
fn heavy_chain_segment_offsets_are_running_sums() {
    let data = vec![10usize, 5, 8];
    assert_eq!(Chain::V.starts_at("HeavyChain", &data), 0);
    assert_eq!(Chain::D.starts_at("HeavyChain", &data), 10);
    assert_eq!(Chain::J.starts_at("HeavyChain", &data), 15);
}

#[test]
fn light_chain_segment_offsets_skip_d() {
    let data = vec![7usize, 0, 4];
    assert_eq!(Chain::V.starts_at("LightChain", &data), 0);
    assert_eq!(Chain::J.starts_at("LightChain", &data), 7);
}

#[test]
fn model_ids_roundtrip() {
    assert_eq!(SequenceModel::length(), 7);
    for id in 0..7usize {
        let m = SequenceModel::from_index(id).unwrap();
        assert_eq!(m.id(), id);
    }
    assert!(SequenceModel::from_index(7).is_none());
}

#[test]
fn locus_names() {
    assert_eq!(SequenceModel::IGH.name(), "IGH-VDJ");
    assert_eq!(SequenceModel::IGL.name(), "IGL-VDJ");
    assert_eq!(SequenceModel::IGK.name(), "IGK-VDJ");
    assert_eq!(SequenceModel::TRA.name(), "TRA-VDJ");
    assert_eq!(SequenceModel::TRB.name(), "TRB-VDJ");
    assert_eq!(SequenceModel::TRG.name(), "TRG-VDJ");
    assert_eq!(SequenceModel::TRD.name(), "TRD-VDJ");
}

#[test]
fn has_data_requires_every_segment_of_the_locus() {
    // heavy-chain structure: V, D and J must all be observed
    assert!(SequenceModel::IGH.has_data(&vec![10, 5, 8]));
    assert!(!SequenceModel::IGH.has_data(&vec![10, 0, 8]));
    assert!(!SequenceModel::IGH.has_data(&vec![0, 5, 8]));
    assert!(!SequenceModel::IGH.has_data(&vec![10, 5, 0]));
    // light-chain structure: only V and J are required
    assert!(SequenceModel::IGL.has_data(&vec![7, 0, 4]));
    assert!(!SequenceModel::IGL.has_data(&vec![7, 0, 0]));
    assert!(!SequenceModel::IGL.has_data(&vec![0, 0, 4]));
}

#[test]
fn locus_starts_at_uses_the_locus_structure() {
    let data = vec![10usize, 5, 8];
    assert_eq!(SequenceModel::IGH.starts_at(&Chain::V, &data), 0);
    assert_eq!(SequenceModel::IGH.starts_at(&Chain::D, &data), 10);
    assert_eq!(SequenceModel::IGH.starts_at(&Chain::J, &data), 15);
    let light = vec![9usize, 0, 3];
    assert_eq!(SequenceModel::TRA.starts_at(&Chain::V, &light), 0);
    assert_eq!(SequenceModel::TRA.starts_at(&Chain::J, &light), 9);
}

#[test]
fn identify_model_type_finds_tokens() {
    let r = VDJmodeler::identify_model_type("IGHV1-2*01|Homo sapiens");
    assert_eq!(r, Some((SequenceModel::IGH, Chain::V)));
    let r = VDJmodeler::identify_model_type("xxTRAJ12yy");
    assert_eq!(r, Some((SequenceModel::TRA, Chain::J)));
    let r = VDJmodeler::identify_model_type("TRBD1*01");
    assert_eq!(r, Some((SequenceModel::TRB, Chain::D)));
}

#[test]
fn identify_model_type_rejects_unknown_headers() {
    assert_eq!(VDJmodeler::identify_model_type("some random header"), None);
    assert_eq!(VDJmodeler::identify_model_type(""), None);
    // matching is case-sensitive, as the catalog tokens are upper case
    assert_eq!(VDJmodeler::identify_model_type("ighv1-2"), None);
}

#[test]
fn identify_model_type_prefers_catalog_order() {
    // IGHV is checked before TRAJ, wherever the tokens sit in the text
    let r = VDJmodeler::identify_model_type("TRAJ7 then IGHV4");
    assert_eq!(r, Some((SequenceModel::IGH, Chain::V)));
}
