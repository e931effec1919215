//! Seeding self-play runs from their tags.

use dominion::selfplay::seed_from_tag;

/// Two machines that both omit --seed must not generate the same games.
#[test]
fn different_tags_give_different_seeds() {
    let tags = [
        "alice", "bob", "agent-a", "agent-b", "ccweb", "cwopus", "xdtvd7", "opus5a", "cloud",
        "laptop", "aws", "default", "w1", "w2",
    ];
    let seeds: Vec<u64> = tags.iter().map(|t| seed_from_tag(t)).collect();
    for (i, a) in seeds.iter().enumerate() {
        for (j, b) in seeds.iter().enumerate().skip(i + 1) {
            assert_ne!(a, b, "{} and {} collide", tags[i], tags[j]);
        }
    }
}

/// Names differing by one character must still separate, and not merely
/// be adjacent.
#[test]
fn near_identical_tags_separate() {
    for (a, b) in [("w1", "w2"), ("agent1", "agent2"), ("a", "b"), ("x", "xx")] {
        let (sa, sb) = (seed_from_tag(a), seed_from_tag(b));
        assert_ne!(sa, sb);
        assert!(
            sa.abs_diff(sb) > 1000,
            "{a} and {b} seed too close: {sa} vs {sb}"
        );
    }
}

#[test]
fn the_same_tag_stays_reproducible() {
    assert_eq!(seed_from_tag("cloud"), seed_from_tag("cloud"));
}
