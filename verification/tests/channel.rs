use spatial_audio::channel::AudioChannel;
use std::collections::HashSet;

#[test]
fn new_handle_has_the_shape_of_a_random_identifier() {
    let handle = AudioChannel::new();
    let key: Vec<char> = handle.channel().chars().collect();
    assert_eq!(key.len(), 36);
    for (i, c) in key.iter().enumerate() {
        if i == 8 || i == 13 || i == 18 || i == 23 {
            assert_eq!(*c, '-');
        } else {
            assert!(matches!(*c, '0'..='9' | 'a'..='f'));
        }
    }
    assert_eq!(key[14], '4');
    assert!(matches!(key[19], '8' | '9' | 'a' | 'b'));
}

#[test]
fn two_new_handles_differ() {
    let first = AudioChannel::new();
    let second = AudioChannel::new();
    assert_ne!(first.channel(), second.channel());
    assert!(!first.same_channel(&second));
    assert_ne!(first, second);
}

#[test]
fn many_new_handles_are_all_distinct() {
    let mut seen: HashSet<String> = HashSet::new();
    for _ in 0..20_000 {
        assert!(seen.insert(AudioChannel::new().channel().to_string()));
    }
    assert_eq!(seen.len(), 20_000);
}

#[test]
fn handle_keeps_its_key() {
    let handle = AudioChannel::with_key(String::from("engine"));
    assert_eq!(handle.channel(), "engine");
    let copy = handle.clone();
    assert_eq!(copy.channel(), "engine");
    assert!(handle.same_channel(&copy));
}

#[test]
fn handles_with_different_keys_are_different_channels() {
    let engine = AudioChannel::with_key(String::from("engine"));
    let siren = AudioChannel::with_key(String::from("siren"));
    assert!(!engine.same_channel(&siren));
    assert!(engine.same_channel(&AudioChannel::with_key(String::from("engine"))));
}
