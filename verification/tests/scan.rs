use memchr::gpt::{self, Capability};
use memchr::naive;

const SHERLOCK: &[u8] = b"Mr. Sherlock Holmes, who was usually very late in the mornings, save!";

fn wide(needle: u8, haystack: &[u8]) -> Option<usize> {
    gpt::memchr(needle, haystack, Capability::Wide)
}

fn narrow(needle: u8, haystack: &[u8]) -> Option<usize> {
    gpt::memchr(needle, haystack, Capability::Narrow)
}

fn scalar(needle: u8, haystack: &[u8]) -> Option<usize> {
    gpt::memchr(needle, haystack, Capability::Scalar)
}

fn all_scanners(needle: u8, haystack: &[u8]) -> [Option<usize>; 4] {
    [
        naive::memchr(needle, haystack),
        wide(needle, haystack),
        narrow(needle, haystack),
        scalar(needle, haystack),
    ]
}

fn buffer_with(len: usize, fill: u8, hits: &[usize], needle: u8) -> Vec<u8> {
    let mut buf: Vec<u8> = vec![fill; len];
    for &at in hits {
        buf[at] = needle;
    }
    buf
}

#[test]
fn empty_buffer_holds_nothing() {
    assert_eq!(all_scanners(b'a', b""), [None; 4]);
    assert_eq!(all_scanners(0, b""), [None; 4]);
}

#[test]
fn sherlock_never() {
    assert_eq!(all_scanners(b'@', SHERLOCK), [None; 4]);
}

#[test]
fn sherlock_rare_is_at_last_index() {
    assert_eq!(SHERLOCK.len(), 69);
    assert_eq!(all_scanners(b'!', SHERLOCK), [Some(68); 4]);
}

#[test]
fn sherlock_common_is_leftmost() {
    let expected: Option<usize> = naive::memchr(b's', SHERLOCK);
    assert_eq!(expected, Some(18));
    assert_eq!(wide(b's', SHERLOCK), expected);
    assert_eq!(narrow(b's', SHERLOCK), expected);
    assert_eq!(scalar(b's', SHERLOCK), expected);
}

#[test]
fn huge_never() {
    let buf: Vec<u8> = vec![b'#'; 1024 * 128];
    assert_eq!(all_scanners(b'@', &buf), [None; 4]);
}

#[test]
fn huge_match_only_at_the_end() {
    let mut buf: Vec<u8> = vec![b'#'; 1024 * 128];
    let last: usize = buf.len() - 1;
    buf[last] = b'@';
    assert_eq!(all_scanners(b'@', &buf), [Some(last); 4]);
}

#[test]
fn scanners_agree_on_every_length_and_position() {
    let mut len: usize = 0;
    while len <= 200 {
        let none: Vec<u8> = vec![b'.'; len];
        assert_eq!(all_scanners(b'x', &none), [None; 4], "len {}", len);
        let mut at: usize = 0;
        while at < len {
            let buf: Vec<u8> = buffer_with(len, b'.', &[at], b'x');
            assert_eq!(all_scanners(b'x', &buf), [Some(at); 4], "len {} at {}", len, at);
            at += 1;
        }
        len += 1;
    }
}

#[test]
fn scanners_agree_on_every_needle_value() {
    let buf: Vec<u8> = (0..=255u8).rev().chain(0..=255u8).collect();
    let mut needle: u8 = 0;
    loop {
        let expected: usize = 255 - needle as usize;
        assert_eq!(all_scanners(needle, &buf), [Some(expected); 4]);
        if needle == 255 {
            break;
        }
        needle += 1;
    }
}

#[test]
fn leftmost_of_several_matches_wins() {
    let buf: Vec<u8> = buffer_with(150, b'-', &[40, 41, 70, 149], b'+');
    assert_eq!(all_scanners(b'+', &buf), [Some(40); 4]);
    let buf: Vec<u8> = buffer_with(150, b'-', &[3, 33, 65], b'+');
    assert_eq!(all_scanners(b'+', &buf), [Some(3); 4]);
    let buf: Vec<u8> = buffer_with(150, b'-', &[130, 131], b'+');
    assert_eq!(all_scanners(b'+', &buf), [Some(130); 4]);
}

#[test]
fn absent_needle_is_never_reported() {
    for len in [0usize, 1, 15, 16, 17, 31, 32, 33, 63, 64, 65, 127, 128, 129, 1000] {
        let buf: Vec<u8> = vec![0x7f; len];
        assert_eq!(all_scanners(0x80, &buf), [None; 4], "len {}", len);
        assert_eq!(all_scanners(0xff, &buf), [None; 4], "len {}", len);
        assert_eq!(all_scanners(0x00, &buf), [None; 4], "len {}", len);
    }
}

#[test]
fn match_at_the_last_byte() {
    for len in [1usize, 2, 16, 31, 32, 33, 47, 48, 63, 64, 65, 95, 96, 97, 128, 255, 256, 257] {
        let buf: Vec<u8> = buffer_with(len, b' ', &[len - 1], b'\n');
        assert_eq!(all_scanners(b'\n', &buf), [Some(len - 1); 4], "len {}", len);
    }
}

#[test]
fn match_on_either_side_of_a_block_boundary() {
    for at in [15usize, 16, 17, 31, 32, 33, 47, 48, 63, 64, 65, 95, 96] {
        let buf: Vec<u8> = buffer_with(160, b'a', &[at], b'b');
        assert_eq!(all_scanners(b'b', &buf), [Some(at); 4], "at {}", at);
    }
}

#[test]
fn below_and_at_the_threshold() {
    assert_eq!(gpt::THRESHOLD, 32);
    let below: Vec<u8> = buffer_with(31, 1, &[30], 2);
    assert_eq!(all_scanners(2, &below), [Some(30); 4]);
    let exactly: Vec<u8> = buffer_with(32, 1, &[31], 2);
    assert_eq!(all_scanners(2, &exactly), [Some(31); 4]);
    let first: Vec<u8> = buffer_with(32, 1, &[0, 31], 2);
    assert_eq!(all_scanners(2, &first), [Some(0); 4]);
}

#[test]
fn high_bit_bytes_are_compared_as_bytes() {
    let buf: Vec<u8> = buffer_with(100, 0x7f, &[77], 0xff);
    assert_eq!(all_scanners(0xff, &buf), [Some(77); 4]);
    let buf: Vec<u8> = buffer_with(100, 0xff, &[50], 0x7f);
    assert_eq!(all_scanners(0x7f, &buf), [Some(50); 4]);
    assert_eq!(all_scanners(0xff, &buf), [Some(0); 4]);
}
