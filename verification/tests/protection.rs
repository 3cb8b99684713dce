use oni_net::protection::{ReplayProtection, Protection, NoProtection, ChallengeFilter, ChallengeOrDisconnectFilter};
use oni_net::packet::{Kind, CHALLENGE_PACKET_BYTES, MIN_PACKET};

#[test]
fn protection_replay_protection() {
    pub const REPLAY_PROTECTION_BUFFER_SIZE: usize = 256;
    let mut replay_protection = ReplayProtection::default();

    for _ in 0..2 {
        replay_protection.reset();

        assert_eq!(replay_protection.most_recent_sequence(), 0);

        const MAX_SEQUENCE: u64 = 4 * REPLAY_PROTECTION_BUFFER_SIZE as u64;

        for sequence in 0..MAX_SEQUENCE {
            assert!(!replay_protection.packet_already_received(sequence),
                "The first time we receive packets, they should not be already received");
        }

        assert!(replay_protection.packet_already_received(0),
            "Old packets outside buffer should be considered already received");

        for sequence in MAX_SEQUENCE - 10..MAX_SEQUENCE {
            assert!(replay_protection.packet_already_received(sequence),
                "Packets received a second time should be flagged already received");
        }

        assert!(!replay_protection.packet_already_received(MAX_SEQUENCE + REPLAY_PROTECTION_BUFFER_SIZE as u64),
            "Jumping ahead to a much higher sequence should be considered not already received");


        for sequence in 0..MAX_SEQUENCE {
            assert!(replay_protection.packet_already_received(sequence),
            "Old packets should be considered already received");
        }
    }
}

#[test]
fn replay_window_edges() {
    let mut rp = ReplayProtection::new();
    assert!(!rp.packet_already_received(300));
    assert_eq!(rp.most_recent_sequence(), 300);
    // 300 - 256 = 44 is just too old, 45 is still inside the window
    assert!(rp.packet_already_received(44));
    assert!(!rp.packet_already_received(45));
    assert!(rp.packet_already_received(45));
    // through the trait
    assert!(Protection::packet_already_received(&mut rp, 300));
    assert!(!Protection::packet_already_received(&mut rp, 301));
}

#[test]
fn filters() {
    assert!(!NoProtection.packet_already_received(7));
    assert!(ChallengeFilter.is_allowed(Kind::Challenge, CHALLENGE_PACKET_BYTES, 0));
    assert!(!ChallengeFilter.is_allowed(Kind::Disconnect, MIN_PACKET, 0));
    assert!(ChallengeOrDisconnectFilter.is_allowed(Kind::Disconnect, MIN_PACKET, 0));
    assert!(!ChallengeOrDisconnectFilter.is_allowed(Kind::Payload, MIN_PACKET, 0));
}

#[test]
fn utils_replay_protection() {
    const SIZE: u64 = 256;
    const MAX: u64 = 4 * SIZE;

    let mut rp = ReplayProtection::new();

    for _ in 0..2 {
        rp.reset();

        assert_eq!(rp.most_recent_sequence(), 0);

        for sequence in 0..MAX {
            assert!(!rp.packet_already_received(sequence),
            "The first time we receive packets, they should not be already received");
        }

        assert!(rp.packet_already_received(0),
        "Old packets outside buffer should be considered already received");

        for sequence in MAX - 10..MAX {
            assert!(rp.packet_already_received(sequence),
            "Packets received a second time should be flagged already received");
        }

        assert!(!rp.packet_already_received(MAX + SIZE),
        "Jumping ahead to a much higher sequence should be considered not already received");

        for sequence in 0..MAX {
            assert!(rp.packet_already_received(sequence),
            "Old packets should be considered already received");
        }
    }
}
