use byte_stream_splitter::ByteStreamSplitter;
use byte_stream_splitter::SplitError;
use byte_stream_splitter::SplitType;

#[test]
fn test_with_prefix() {
    let separator = [0x00, 0x00];
    let data = vec![
        0xAA, 0xAB, // Prefix
        0x00, 0x00, 0x01, 0x02, 0x03, // FullMatch
        0x00, 0x00, 0x04, 0x05, 0x06, // FullMatch
        0x00, 0x00, 0x07, 0x08, // Suffix
    ];

    let mut splitter = ByteStreamSplitter::new(data, separator.to_vec());
    let prefix = splitter.next().unwrap().unwrap();
    let match1 = splitter.next().unwrap().unwrap();
    let match2 = splitter.next().unwrap().unwrap();
    let suffix = splitter.next().unwrap().unwrap();

    assert_eq!(prefix, vec![0xAA, 0xAB]);
    assert_eq!(match1, vec![0x01, 0x02, 0x03]);
    assert_eq!(match2, vec![0x04, 0x05, 0x06]);
    assert_eq!(suffix, vec![0x07, 0x08]);
}

#[test]
fn test_without_prefix() {
    let separator = [0x00, 0x00];
    let data = vec![
        0x00, 0x00, 0x01, 0x02, 0x03, // FullMatch
        0x00, 0x00, 0x04, 0x05, 0x06, // FullMatch
        0x00, 0x00, 0x07, 0x08, // Suffix
    ];

    let mut splitter = ByteStreamSplitter::new(data, separator.to_vec());
    let prefix = splitter.next().unwrap().unwrap();
    let match1 = splitter.next().unwrap().unwrap();
    let match2 = splitter.next().unwrap().unwrap();
    let suffix = splitter.next().unwrap().unwrap();

    assert_eq!(prefix, vec![]);
    assert_eq!(match1, vec![0x01, 0x02, 0x03]);
    assert_eq!(match2, vec![0x04, 0x05, 0x06]);
    assert_eq!(suffix, vec![0x07, 0x08]);
}

#[test]
fn test_skip_bug() {
    let separator = [0x00, 0x00];
    let data = vec![
        0x00, 0x00, 0x01, 0x02, 0x03, 0x04, 0x05, 0x06, 0x07, //
        0x00, 0x00, 0x00, 0x04, 0x05, 0x06, //
        0x00, 0x00, 0x07, 0x08,
    ];

    let mut splitter = ByteStreamSplitter::new(data, separator.to_vec());
    let prefix = splitter.next().unwrap().unwrap();
    println!("p{:?}", prefix);
    let match1 = splitter.next().unwrap().unwrap();
    println!("1m{:?}", match1);
    let match2 = splitter.next().unwrap().unwrap();
    println!("1m{:?}", match2);
    let suffix = splitter.next().unwrap().unwrap();
    println!("s{:?}", suffix);

    assert_eq!(prefix, vec![]);
    assert_eq!(match1, vec![0x01, 0x02, 0x03, 0x04, 0x05, 0x06, 0x07]);
    assert_eq!(match2, vec![0x00, 0x04, 0x05, 0x06]);
    assert_eq!(suffix, vec![0x07, 0x08]);
}

#[test]
fn test_skip_bug2() {
    let separator = [0x01, 0x02, 0x03];
    let data = vec![
        0x01, 0x02, 0x03, 0x02, 0x02, 0x03, 0x04, 0x05, 0x06, 0x07, //
        0x01, 0x02, 0x03, 0x04, 0x05, 0x06, //
        0x01, 0x02, 0x03, 0x08,
    ];

    let mut splitter = ByteStreamSplitter::new(data, separator.to_vec());
    let prefix = splitter.next().unwrap().unwrap();
    println!("p{:?}", prefix);
    let match1 = splitter.next().unwrap().unwrap();
    println!("1m{:?}", match1);
    let match2 = splitter.next().unwrap().unwrap();
    println!("1m{:?}", match2);
    let suffix = splitter.next().unwrap().unwrap();
    println!("s{:?}", suffix);

    assert_eq!(prefix, vec![]);
    assert_eq!(match1, vec![0x02, 0x02, 0x03, 0x04, 0x05, 0x06, 0x07]);
    assert_eq!(match2, vec![0x04, 0x05, 0x06]);
    assert_eq!(suffix, vec![0x08]);
}

#[test]
fn no_separator_yields_single_suffix() {
    let mut splitter = ByteStreamSplitter::new(vec![0xAA, 0xBB, 0xCC], vec![0x00, 0x00]);
    let mut out = Vec::new();
    let kind = splitter.next_to_buf(&mut out).unwrap();
    assert_eq!(kind, SplitType::Suffix);
    assert_eq!(out, vec![0xAA, 0xBB, 0xCC]);
    assert!(splitter.next().is_none());
}

#[test]
fn classifications_in_order() {
    let data = vec![0xAA, 0xAB, 0x00, 0x00, 0x01, 0x00, 0x00, 0x02];
    let mut splitter = ByteStreamSplitter::new(data, vec![0x00, 0x00]);

    let mut out = Vec::new();
    assert_eq!(splitter.next_to_buf(&mut out).unwrap(), SplitType::Prefix);
    assert_eq!(out, vec![0xAA, 0xAB]);

    let mut out = Vec::new();
    assert_eq!(splitter.next_to_buf(&mut out).unwrap(), SplitType::FullMatch);
    assert_eq!(out, vec![0x01]);

    let mut out = Vec::new();
    assert_eq!(splitter.next_to_buf(&mut out).unwrap(), SplitType::Suffix);
    assert_eq!(out, vec![0x02]);
}

#[test]
fn exhausted_splitter_keeps_failing() {
    let mut splitter = ByteStreamSplitter::new(vec![0x01, 0x02], vec![0x00, 0x00]);
    let mut out = Vec::new();
    assert_eq!(splitter.next_to_buf(&mut out).unwrap(), SplitType::Suffix);

    let mut out = Vec::new();
    assert_eq!(splitter.next_to_buf(&mut out), Err(SplitError::InvalidState));
    assert!(out.is_empty());
    let mut out = Vec::new();
    assert_eq!(splitter.next_to_buf(&mut out), Err(SplitError::InvalidState));
    assert!(out.is_empty());
    assert!(splitter.next().is_none());
    assert!(splitter.next().is_none());
}

#[test]
fn empty_input_is_one_empty_suffix() {
    let mut splitter = ByteStreamSplitter::new(Vec::new(), vec![0x00, 0x00]);
    let run = splitter.next().unwrap().unwrap();
    assert!(run.is_empty());
    let mut out = Vec::new();
    assert_eq!(splitter.next_to_buf(&mut out), Err(SplitError::InvalidState));
    assert!(splitter.next().is_none());
}

#[test]
fn input_equal_to_separator() {
    let mut splitter = ByteStreamSplitter::new(vec![0x00, 0x00], vec![0x00, 0x00]);
    let mut out = Vec::new();
    assert_eq!(splitter.next_to_buf(&mut out).unwrap(), SplitType::Prefix);
    assert!(out.is_empty());
    let mut out = Vec::new();
    assert_eq!(splitter.next_to_buf(&mut out).unwrap(), SplitType::Suffix);
    assert!(out.is_empty());
}

#[test]
fn separator_at_end_gives_empty_suffix() {
    let mut splitter = ByteStreamSplitter::new(vec![0x07, 0x00, 0x00], vec![0x00, 0x00]);
    let prefix = splitter.next().unwrap().unwrap();
    let suffix = splitter.next().unwrap().unwrap();
    assert_eq!(prefix, vec![0x07]);
    assert!(suffix.is_empty());
    assert!(splitter.next().is_none());
}

#[test]
fn trailing_partial_separator_is_flushed() {
    let mut splitter = ByteStreamSplitter::new(vec![0x01, 0x00], vec![0x00, 0x00]);
    let mut out = Vec::new();
    assert_eq!(splitter.next_to_buf(&mut out).unwrap(), SplitType::Suffix);
    assert_eq!(out, vec![0x01, 0x00]);

    let mut splitter = ByteStreamSplitter::new(vec![0x01, 0x00, 0x00, 0x02, 0x00], vec![0x00, 0x00]);
    let prefix = splitter.next().unwrap().unwrap();
    let suffix = splitter.next().unwrap().unwrap();
    assert_eq!(prefix, vec![0x01]);
    assert_eq!(suffix, vec![0x02, 0x00]);
}

#[test]
fn single_byte_separator() {
    let mut splitter = ByteStreamSplitter::new(vec![0x01, 0xFF, 0x02, 0xFF, 0xFF, 0x03], vec![0xFF]);
    assert_eq!(splitter.next().unwrap().unwrap(), vec![0x01]);
    assert_eq!(splitter.next().unwrap().unwrap(), vec![0x02]);
    assert_eq!(splitter.next().unwrap().unwrap(), vec![]);
    assert_eq!(splitter.next().unwrap().unwrap(), vec![0x03]);
    assert!(splitter.next().is_none());
}

#[test]
fn prepend_mode_restores_delimited_chunks() {
    let data = vec![0xAA, 0x00, 0x00, 0x01, 0x02, 0x00, 0x00, 0x03];
    let mut splitter = ByteStreamSplitter::new(data, vec![0x00, 0x00]);
    splitter.next_prepends_seperator = true;

    // the first run is never prepended
    assert_eq!(splitter.next().unwrap().unwrap(), vec![0xAA]);
    assert_eq!(splitter.next().unwrap().unwrap(), vec![0x00, 0x00, 0x01, 0x02]);
    assert_eq!(splitter.next().unwrap().unwrap(), vec![0x00, 0x00, 0x03]);
    assert!(splitter.next().is_none());
}

#[test]
fn runs_and_separators_reconstruct_input() {
    let data = vec![
        0x00, 0x09, 0x00, 0x00, 0x00, 0x01, 0x00, 0x00, 0x00, 0x00, 0x02, 0x00,
    ];
    let separator = vec![0x00, 0x00];
    let mut splitter = ByteStreamSplitter::new(data.clone(), separator.clone());

    let mut runs = Vec::new();
    while let Some(run) = splitter.next() {
        runs.push(run.unwrap());
    }

    let mut rebuilt = Vec::new();
    for (i, run) in runs.iter().enumerate() {
        if i > 0 {
            rebuilt.extend_from_slice(&separator);
        }
        rebuilt.extend_from_slice(run);
    }
    assert_eq!(rebuilt, data);
}

#[test]
fn overlapping_near_match_keeps_leftover_byte() {
    // a separator occurrence followed by a lone extra first byte: the
    // leftover byte is data of the following run
    let data = vec![0x00, 0x00, 0x00, 0x04, 0x05, 0x06, 0x00, 0x00, 0x07, 0x08];
    let mut splitter = ByteStreamSplitter::new(data, vec![0x00, 0x00]);
    assert_eq!(splitter.next().unwrap().unwrap(), vec![]);
    assert_eq!(splitter.next().unwrap().unwrap(), vec![0x00, 0x04, 0x05, 0x06]);
    assert_eq!(splitter.next().unwrap().unwrap(), vec![0x07, 0x08]);
    assert!(splitter.next().is_none());
}
