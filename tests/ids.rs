use gnrng_id::{
    create_deterministic_ids_by_seed, create_id_by_seed, create_ids_by_seed, id_from_positions,
    IdType, ALPHABET_LEN, AVAILABLE_ALPHABET, Gnrng,
};

#[test]
fn test_batch_seeded_id_generation() {
    let ids1 = create_ids_by_seed("base", 5, Some(7), Some(IdType::Default));
    let ids2 = create_ids_by_seed("base", 5, Some(7), Some(IdType::Default));
    assert_eq!(ids1.len(), 5);
    assert_eq!(ids2.len(), 5);
    assert_eq!(ids1, ids2);
    let det_ids1 = create_deterministic_ids_by_seed("test", 5, Some(7), Some(IdType::Default));
    let det_ids2 = create_deterministic_ids_by_seed("test", 5, Some(7), Some(IdType::Default));
    assert_eq!(det_ids1, det_ids2);
}

#[test]
fn test_create_id_by_seed_deterministic() {
    let id1 = create_id_by_seed("test", Some(8), Some(IdType::User));
    let id2 = create_id_by_seed("test", Some(8), Some(IdType::User));
    assert_eq!(id1, id2);
}

#[test]
fn test_create_id_by_seed_different_seeds() {
    let id1 = create_id_by_seed("seed1", Some(8), Some(IdType::User));
    let id2 = create_id_by_seed("seed2", Some(8), Some(IdType::User));
    assert_ne!(id1, id2);
}

#[test]
fn test_id_prefixes() {
    assert_eq!(IdType::User.get_prefix(), "u_");
    assert_eq!(IdType::Team.get_prefix(), "tm_");
    assert_eq!(IdType::Project.get_prefix(), "p_");
    assert_eq!(IdType::Default.get_prefix(), "t_");
}

#[test]
fn test_create_id_format() {
    let id = create_id_by_seed("test", Some(7), Some(IdType::User));
    assert!(id.starts_with("u_"));
    assert_eq!(id.len(), 2 + 7);
    let id_part = &id[2..];
    for ch in id_part.chars() {
        assert!(AVAILABLE_ALPHABET.contains(ch));
    }
}

#[test]
fn test_performance_optimizations() {
    assert_eq!(ALPHABET_LEN, AVAILABLE_ALPHABET.len());
    assert_eq!(AVAILABLE_ALPHABET.as_bytes().len(), ALPHABET_LEN);
    let mut rng = Gnrng::new("test");
    let _value = rng.next_u32();
    let _range_value = rng.next_range(1, 10);
}

#[test]
fn seeded_id_exact_values() {
    assert_eq!(create_id_by_seed("test", Some(8), Some(IdType::User)), "u_q8XvjmKt");
    assert_eq!(create_id_by_seed("test", Some(7), Some(IdType::User)), "u_q8XvjmK");
    assert_eq!(create_id_by_seed("seed1", Some(8), Some(IdType::User)), "u_rV9Uqzia");
    assert_eq!(create_id_by_seed("seed2", Some(8), Some(IdType::User)), "u_96AFdbvP");
}

#[test]
fn seeded_id_defaults() {
    assert_eq!(create_id_by_seed("test", None, None), "t_q8XvjmK");
    assert_eq!(create_id_by_seed("test", Some(0), Some(IdType::Team)), "tm_");
    assert_eq!(create_id_by_seed("test", Some(3), Some(IdType::Project)), "p_q8X");
}

#[test]
fn seeded_id_shape() {
    let id = create_id_by_seed("test", Some(8), Some(IdType::User));
    assert_eq!(id.len(), 2 + 8);
    assert!(id.starts_with("u_"));
    assert!(id[2..].chars().all(|c| AVAILABLE_ALPHABET.contains(c)));
}

#[test]
fn per_item_seeds_are_base_dash_index() {
    let ids = create_ids_by_seed("base", 3, None, None);
    assert_eq!(ids, vec!["t_MkU6aQu", "t_6yREKX9", "t_wZP29tV"]);
    for (i, id) in ids.iter().enumerate() {
        let seed = format!("base-{}", i);
        assert_eq!(*id, create_id_by_seed(&seed, None, None));
    }
}

#[test]
fn deterministic_ids_continue_one_stream() {
    let ids = create_deterministic_ids_by_seed("test", 3, None, None);
    assert_eq!(ids, vec!["t_q8XvjmK", "t_tm3y6rW", "t_6HTAemY"]);
    let long = create_id_by_seed("test", Some(21), None);
    let joined: String = ids.iter().map(|id| &id[2..]).collect();
    assert_eq!(joined, long[2..]);
}

#[test]
fn deterministic_and_per_item_batches_differ() {
    let det = create_deterministic_ids_by_seed("s", 5, None, None);
    let per_item = create_ids_by_seed("s", 5, None, None);
    assert_eq!(det, create_deterministic_ids_by_seed("s", 5, None, None));
    assert_eq!(per_item, create_ids_by_seed("s", 5, None, None));
    assert_ne!(det, per_item);
}

#[test]
fn empty_batches() {
    assert!(create_ids_by_seed("base", 0, None, None).is_empty());
    assert!(create_deterministic_ids_by_seed("base", 0, None, None).is_empty());
}

#[test]
fn ids_from_positions_wrap_around() {
    let id = id_from_positions(&vec![0, 57, 58, 59, 115], IdType::User);
    assert_eq!(id, "u_1z12z");
    assert_eq!(id_from_positions(&vec![], IdType::Team), "tm_");
}
