use cog_engine::source::{range_header, range_reply, RangeReply};
use cog_engine::source::{
    clamp_range, document_too_large, fetch_all_step, FetchAllStep, MemorySource, SourceError,
    FETCH_ALL_INITIAL, FETCH_ALL_LIMIT,
};

#[test]
fn memory_source_clamps_at_end_of_data() {
    let s = MemorySource::new((0u8..10).collect());
    assert_eq!(&s.read_range(2, 5).unwrap()[..], &[2, 3, 4]);
    assert_eq!(&s.read_range(8, 100).unwrap()[..], &[8, 9]);
    assert_eq!(s.read_range(3, 3).unwrap().len(), 0);
    assert_eq!(
        s.read_range(10, 12).unwrap_err(),
        SourceError("range 10..12 out of bounds (len 10)".to_string())
    );
    assert_eq!(
        s.read_range(5, 4).unwrap_err(),
        SourceError("range 5..4 out of bounds (len 10)".to_string())
    );
    let empty = MemorySource::new(Vec::new());
    assert!(empty.read_range(0, 1).is_err());
}

#[test]
fn clamp_range_contract() {
    assert_eq!(clamp_range(0, 10, 5), Some(5));
    assert_eq!(clamp_range(1, 3, 5), Some(3));
    assert_eq!(clamp_range(5, 6, 5), None);
    assert_eq!(clamp_range(3, 2, 5), None);
    assert_eq!(clamp_range(2, 2, 5), Some(2));
}

#[test]
fn whole_document_read_by_growing_requests() {
    // a document bigger than the first request is read in full by fourfold growth
    let big = vec![b'x'; 1_500_000];
    let src = MemorySource::new(big.clone());
    let mut cap = FETCH_ALL_INITIAL;
    let mut asks = 0;
    let got = loop {
        let bytes = src.read_range(0, cap).expect("io ok");
        asks += 1;
        match fetch_all_step(cap, bytes.len() as u64) {
            FetchAllStep::Done => break bytes,
            FetchAllStep::Grow(c) => cap = c,
            FetchAllStep::TooLarge => panic!("limit"),
        }
    };
    assert_eq!(got.len(), big.len());
    assert_eq!(asks, 4);
    assert_eq!(fetch_all_step(10, 3), FetchAllStep::Done);
    assert_eq!(fetch_all_step(FETCH_ALL_LIMIT, FETCH_ALL_LIMIT), FetchAllStep::Grow(FETCH_ALL_LIMIT + 1));
    assert_eq!(fetch_all_step(FETCH_ALL_LIMIT + 1, FETCH_ALL_LIMIT + 1), FetchAllStep::TooLarge);
    assert_eq!(fetch_all_step(FETCH_ALL_LIMIT + 1, FETCH_ALL_LIMIT), FetchAllStep::Done);
    assert_eq!(fetch_all_step(16777216, 16777216), FetchAllStep::Grow(FETCH_ALL_LIMIT));
    assert_eq!(fetch_all_step(FETCH_ALL_INITIAL, FETCH_ALL_INITIAL), FetchAllStep::Grow(262144));
    assert_eq!(document_too_large().0, "document exceeds 64MiB");
}

#[test]
fn http_range_header_names_the_last_byte() {
    assert_eq!(range_header(0, 100), "bytes=0-99");
    assert_eq!(range_header(65536, 131072), "bytes=65536-131071");
    assert_eq!(range_header(0, 0), "bytes=0-0");
}

#[test]
fn http_range_replies_keep_the_range_contract() {
    assert_eq!(range_reply(206, 0, 10, 5), RangeReply::Body);
    assert_eq!(range_reply(200, 2, 10, 5), RangeReply::Slice(2, 5));
    assert_eq!(range_reply(200, 2, 4, 5), RangeReply::Slice(2, 4));
    assert_eq!(range_reply(200, 5, 10, 5), RangeReply::StartPastEnd);
    assert_eq!(range_reply(416, 5, 10, 5), RangeReply::NotSatisfiable);
    assert_eq!(range_reply(404, 0, 10, 0), RangeReply::Failed(404));
}

/// Reads a whole document the way a reader does: requests from offset 0 that
/// grow by the library's step until one comes back short.
fn read_whole(s: &MemorySource) -> Result<Vec<u8>, SourceError> {
    let mut cap = FETCH_ALL_INITIAL;
    loop {
        let got = s.read_range(0, cap)?;
        match fetch_all_step(cap, got.len() as u64) {
            FetchAllStep::Done => return Ok(got.to_vec()),
            FetchAllStep::TooLarge => return Err(document_too_large()),
            FetchAllStep::Grow(next) => cap = next,
        }
    }
}

#[test]
fn fetch_all_reads_whole_document_progressively() {
    let big = vec![b'x'; 1_500_000];
    let got = read_whole(&MemorySource::new(big.clone())).expect("io ok");
    assert_eq!(got.len(), big.len());
    let small = vec![b'y'; 10];
    let got = read_whole(&MemorySource::new(small.clone())).expect("io ok");
    assert_eq!(got.as_slice(), small.as_slice());
}

#[test]
fn document_of_exactly_the_limit_is_read_whole() {
    let exact = MemorySource::new(vec![b'z'; FETCH_ALL_LIMIT as usize]);
    assert_eq!(read_whole(&exact).expect("64 MiB is allowed").len(), FETCH_ALL_LIMIT as usize);
    let over = MemorySource::new(vec![b'z'; FETCH_ALL_LIMIT as usize + 1]);
    assert_eq!(read_whole(&over), Err(document_too_large()));
}
