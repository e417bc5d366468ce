use shadow_rs::ids::{ShardId, default_shard_id};

#[test]
fn default_shard_is_zero() {
    assert_eq!(default_shard_id(), ShardId(0));
}

#[test]
fn shard_id_round_trip() {
    let s = ShardId(42);
    let u: u32 = s.into();
    assert_eq!(u, 42);
    let s2: ShardId = u.into();
    assert_eq!(s, s2);
}
