use shap_rs::grouping::{
    image_segments, image_value_count, immutable_flags, normalize_labels, reconstruction_shown,
    token_groups, token_mask_shown,
};
use shap_rs::{ShapError, SpecialTokenPolicy};

#[test]
fn labels_are_renumbered_by_first_appearance() {
    let (ranks, count) = normalize_labels(&vec![Some(5), None, Some(3), Some(5)]);
    assert_eq!(ranks, vec![Some(0), None, Some(1), Some(0)]);
    assert_eq!(count, 2);
    let (ranks, count) = normalize_labels(&vec![None, None]);
    assert_eq!(ranks, vec![None, None]);
    assert_eq!(count, 0);
}

#[test]
fn preserved_special_tokens_leave_the_coalition() {
    let groups = vec![7, 7, 3, 9];
    let special = vec![true, false, false, true];
    let (ranks, count) = token_groups(&groups, &special, SpecialTokenPolicy::Preserve).unwrap();
    assert_eq!(ranks, vec![None, Some(0), Some(1), None]);
    assert_eq!(count, 2);
    let (ranks, count) = token_groups(&groups, &special, SpecialTokenPolicy::Mask).unwrap();
    assert_eq!(ranks, vec![Some(0), Some(0), Some(1), Some(2)]);
    assert_eq!(count, 3);
}

#[test]
fn a_tokenization_needs_one_maskable_group() {
    assert_eq!(
        token_groups(&vec![1, 2], &vec![true, true], SpecialTokenPolicy::Preserve).err(),
        Some(ShapError::InvalidConfiguration(
            "tokenized text masker must expose at least one non-preserved token group".to_string()
        ))
    );
}

#[test]
fn segments_share_one_bit_per_label() {
    let (ranks, count, values) = image_segments(2, 2, 3, &vec![4, 4, 9, 4]).unwrap();
    assert_eq!(ranks, vec![0, 0, 1, 0]);
    assert_eq!(count, 2);
    assert_eq!(values, 12);
}

#[test]
fn segment_labels_must_cover_every_pixel() {
    assert_eq!(
        image_segments(2, 2, 1, &vec![0, 1, 2]).err(),
        Some(ShapError::DimensionMismatch { expected: "4 segment labels".to_string(), found: "3".to_string() })
    );
    assert_eq!(
        image_segments(0, 2, 1, &vec![]).err(),
        Some(ShapError::DimensionMismatch { expected: "0 segment labels".to_string(), found: "0".to_string() })
    );
    assert_eq!(
        image_segments(usize::MAX, 2, 1, &vec![]).err(),
        Some(ShapError::InvalidConfiguration("image dimensions overflow".to_string()))
    );
    assert_eq!(
        image_segments(usize::MAX, 1, 2, &vec![]).err(),
        Some(ShapError::InvalidConfiguration("image dimensions overflow".to_string()))
    );
}

#[test]
fn image_reference_must_have_one_value_per_channel() {
    assert_eq!(image_value_count(2, 2, 3, 12), Ok(12));
    assert_eq!(
        image_value_count(2, 2, 1, 2),
        Err(ShapError::DimensionMismatch { expected: "4 image values".to_string(), found: "2".to_string() })
    );
    assert_eq!(
        image_value_count(usize::MAX, 2, 1, 2),
        Err(ShapError::InvalidConfiguration("image dimensions overflow".to_string()))
    );
}

#[test]
fn reconstruction_keeps_present_groups_and_unlabelled_pieces() {
    let groups = vec![None, Some(0), Some(0), Some(1), None];
    assert_eq!(
        reconstruction_shown(&groups, 2, &vec![false, true]),
        Ok(vec![true, false, false, true, true])
    );
    assert_eq!(
        reconstruction_shown(&groups, 2, &vec![true, true, true]),
        Err(ShapError::DimensionMismatch { expected: "2 token groups".to_string(), found: "3".to_string() })
    );
}

#[test]
fn token_masks_check_sample_and_mask_lengths() {
    let groups = vec![None, Some(0), Some(1)];
    assert_eq!(token_mask_shown(&groups, 2, 3, &vec![true, false]), Ok(vec![true, true, false]));
    assert_eq!(
        token_mask_shown(&groups, 2, 4, &vec![true, false]),
        Err(ShapError::DimensionMismatch {
            expected: "3 token IDs and 2 token groups".to_string(),
            found: "sample 4, mask 2".to_string()
        })
    );
}

#[test]
fn immutable_positions_are_marked_or_rejected() {
    assert_eq!(immutable_flags(vec![false; 3], &[0, 2]), Ok(vec![true, false, true]));
    assert_eq!(immutable_flags(vec![false, true], &[]), Ok(vec![false, true]));
    assert_eq!(
        immutable_flags(vec![false; 3], &[1, 5, 7]),
        Err(ShapError::InvalidFeatureIndex { index: 5, n_features: 3 })
    );
}

#[test]
fn tokenized_text_groups_pieces_and_reconstructs_text() {
    let ids = [101., 10., 11., 20., 102.];
    let texts = ["[CLS]", "walk", "##ing", " home", "[SEP]"];
    let groups = vec![99, 0, 0, 1, 100];
    let special = vec![true, false, false, false, true];
    let (positions, count) = token_groups(&groups, &special, SpecialTokenPolicy::Preserve).unwrap();
    assert_eq!(count, 2);
    let shown = token_mask_shown(&positions, count, 5, &vec![false, true]).unwrap();
    let masked: Vec<f64> = shown.iter().zip(ids).map(|(&keep, id)| if keep { id } else { 0. }).collect();
    assert_eq!(masked, vec![101., 0., 0., 20., 102.]);
    let shown = reconstruction_shown(&positions, count, &vec![false, true]).unwrap();
    let text: String = shown.iter().zip(texts).map(|(&keep, t)| if keep { t } else { "[MASK]" }).collect();
    assert_eq!(text, "[CLS][MASK][MASK] home[SEP]");
}

#[test]
fn tokenized_text_can_mask_special_tokens() {
    let (positions, count) = token_groups(&vec![0, 1], &vec![true, false], SpecialTokenPolicy::Mask).unwrap();
    let shown = reconstruction_shown(&positions, count, &vec![false, true]).unwrap();
    let text: Vec<&str> = shown.iter().zip(["CLS", "word"]).map(|(&keep, t)| if keep { t } else { "_" }).collect();
    assert_eq!(text.join(" "), "_ word");
    let shown = token_mask_shown(&positions, count, 2, &vec![false, true]).unwrap();
    let masked: Vec<f64> = shown.iter().zip([101., 5.]).map(|(&keep, id)| if keep { id } else { -1. }).collect();
    assert_eq!(masked, vec![-1., 5.]);
}
