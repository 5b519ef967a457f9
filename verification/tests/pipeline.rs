use keyed_stats::chunk::{plan_chunks, Chunk};
use keyed_stats::errors::PipelineError;
use keyed_stats::report::render_report;
use keyed_stats::stats::Measurement;
use keyed_stats::table::{Entry, Table};
use keyed_stats::worker::process_chunk;

/// The window read at each nominal boundary offset, as in the planner's
/// design: long enough to hold at least one whole record.
const PROBE_WINDOW: usize = 100;

/// Runs the whole pipeline the way the process around it would: plan
/// chunks from probe windows, process each chunk, merge, render.
fn run_pipeline(content: &[u8], workers: usize) -> Vec<u8> {
    let file_size = content.len() as u64;
    let chunk_size = file_size / workers as u64;
    let mut probes: Vec<Vec<u8>> = Vec::new();
    let mut p = 0;
    while p + 1 < workers {
        let off = (p as u64 + 1) * chunk_size;
        let end = if off as usize + PROBE_WINDOW < content.len() {
            off as usize + PROBE_WINDOW
        } else {
            content.len()
        };
        probes.push(content[off as usize..end].to_vec());
        p += 1;
    }
    let chunks = plan_chunks(file_size, workers, &probes).unwrap();
    assert_eq!(chunks.len(), workers);
    let mut global = Table::new();
    for c in &chunks {
        let local = process_chunk(&content[c.start as usize..c.end as usize]).unwrap();
        global.merge_from(local).unwrap();
    }
    render_report(global)
}

#[test]
fn three_records_one_worker() {
    let content = b"Hamburg;12.0\nBerlin;8.5\nHamburg;-3.2\n";
    let report = run_pipeline(content, 1);
    assert_eq!(report, b"{Berlin=8.5/8.5/8.5,Hamburg=-3.2/12.0/4.4}".to_vec());
}

#[test]
fn empty_input_yields_empty_report() {
    let report = run_pipeline(b"", 1);
    assert_eq!(report, b"{}".to_vec());
}

#[test]
fn report_is_identical_for_any_worker_count() {
    let mut content: Vec<u8> = Vec::new();
    let stations: [&[u8]; 6] =
        [b"Aba", b"Nouakchott", b"Ber", b"Xo", b"Quito", b"Ulaanbaatar"];
    let values: [&[u8]; 5] = [b"12.0", b"-3.2", b"0.0", b"999.9", b"-41.5"];
    for round in 0..7 {
        for (i, station) in stations.iter().enumerate() {
            content.extend_from_slice(station);
            content.push(b';');
            content.extend_from_slice(values[(i + round) % values.len()]);
            content.push(b'\n');
        }
    }
    let reference = run_pipeline(&content, 1);
    for workers in [2, 4, 17] {
        assert_eq!(run_pipeline(&content, workers), reference);
    }
}

#[test]
fn chunks_tile_the_file_on_line_breaks() {
    let mut content: Vec<u8> = Vec::new();
    for i in 0..40 {
        content.extend_from_slice(b"station");
        content.push(b'0' + (i % 10));
        content.extend_from_slice(b";1.5\n");
    }
    let file_size = content.len() as u64;
    for workers in [1usize, 2, 3, 5, 17] {
        let chunk_size = file_size / workers as u64;
        let mut probes: Vec<Vec<u8>> = Vec::new();
        for p in 0..workers - 1 {
            let off = ((p as u64 + 1) * chunk_size) as usize;
            let end = (off + PROBE_WINDOW).min(content.len());
            probes.push(content[off..end].to_vec());
        }
        let chunks: Vec<Chunk> = plan_chunks(file_size, workers, &probes).unwrap();
        assert_eq!(chunks.len(), workers);
        assert_eq!(chunks[0].start, 0);
        assert_eq!(chunks[workers - 1].end, file_size);
        for w in 0..workers {
            assert!(chunks[w].start <= chunks[w].end);
            if w > 0 {
                assert_eq!(chunks[w].start, chunks[w - 1].end);
                // every boundary falls right after a line break (or on
                // an empty chunk's shared boundary)
                let b = chunks[w].start;
                assert!(b == chunks[w - 1].start || content[b as usize - 1] == b'\n');
            }
        }
    }
}

#[test]
fn more_workers_than_records_still_cover_the_file() {
    // the nominal chunk size is zero here; later chunks collapse to
    // empty ranges and the report is unaffected
    let content = b"a;1.0\nb;2.0\n";
    let report = run_pipeline(content, 17);
    assert_eq!(report, b"{a=1.0/1.0/1.0,b=2.0/2.0/2.0}".to_vec());
}

#[test]
fn probe_without_line_break_is_fatal() {
    // one record far longer than the probe window
    let probes = vec![vec![b'a'; PROBE_WINDOW]];
    let r = plan_chunks(400, 2, &probes);
    assert_eq!(r.unwrap_err(), PipelineError::NoLineBreak(0));
}

#[test]
fn missing_delimiter_is_fatal_with_line_index() {
    let r = process_chunk(b"Hamburg;12.0\nBerlin 8.5\n");
    assert_eq!(r.unwrap_err(), PipelineError::MissingDelimiter(1));
}

#[test]
fn bad_numeral_is_fatal_with_line_index() {
    let r = process_chunk(b"Hamburg;12.0\nBerlin;8x5\nUlm;1.0\n");
    assert_eq!(r.unwrap_err(), PipelineError::BadNumeral(1));
}

#[test]
fn final_line_may_lack_the_trailing_break() {
    let t = process_chunk(b"Hamburg;12.0\nHamburg;-3.2").unwrap();
    let m = t.lookup(b"Hamburg").unwrap();
    assert_eq!(m.count, 2);
    assert_eq!(m.sum, 88);
}

#[test]
fn worker_table_keeps_keys_unique() {
    let t = process_chunk(b"a;1.0\nb;2.0\na;3.0\n").unwrap();
    assert_eq!(t.len(), 2);
    let a = t.lookup(b"a").unwrap();
    assert_eq!((a.min, a.max, a.count), (10, 30, 2));
    let b = t.lookup(b"b").unwrap();
    assert_eq!((b.min, b.max, b.count), (20, 20, 1));
    assert!(t.lookup(b"c").is_none());
}

#[test]
fn record_value_creates_then_updates() {
    let mut t = Table::new();
    t.record_value(b"x".to_vec(), 10);
    t.record_value(b"x".to_vec(), 30);
    t.record_value(b"y".to_vec(), -5);
    assert_eq!(t.len(), 2);
    let x = t.lookup(b"x").unwrap();
    assert_eq!((x.min, x.max, x.sum, x.count), (10, 30, 40, 2));
    let y = t.lookup(b"y").unwrap();
    assert_eq!((y.min, y.max, y.sum, y.count), (-5, -5, -5, 1));
}

#[test]
fn merge_moves_unshared_keys_and_merges_shared_ones() {
    let mut global = process_chunk(b"a;1.0\nb;2.0\n").unwrap();
    let local = process_chunk(b"b;4.0\nc;-1.0\n").unwrap();
    global.merge_from(local).unwrap();
    assert_eq!(global.len(), 3);
    let b = global.lookup(b"b").unwrap();
    assert_eq!((b.min, b.max, b.sum, b.count), (20, 40, 60, 2));
    let report = render_report(global);
    assert_eq!(report, b"{a=1.0/1.0/1.0,b=2.0/4.0/3.0,c=-1.0/-1.0/-1.0}".to_vec());
}

#[test]
fn counter_overflow_on_merge_is_reported() {
    let mut a = Table {
        entries: vec![Entry {
            key: b"k".to_vec(),
            stats: Measurement { min: 0, max: 0, sum: 0, count: u64::MAX },
        }],
    };
    let b = Table {
        entries: vec![Entry {
            key: b"k".to_vec(),
            stats: Measurement { min: 0, max: 0, sum: 0, count: 1 },
        }],
    };
    let r = a.merge_from(b);
    assert_eq!(r.unwrap_err(), PipelineError::StatOverflow);
    // the failed merge left the table unchanged
    assert_eq!(a.lookup(b"k").unwrap().count, u64::MAX);
}

#[test]
fn error_descriptions_name_the_condition() {
    assert_eq!(
        PipelineError::MissingDelimiter(3).describe(),
        "record line holds no delimiter"
    );
    assert_eq!(
        PipelineError::BadNumeral(0).describe(),
        "record value is not a well-formed decimal"
    );
    assert_eq!(
        PipelineError::NoLineBreak(1).describe(),
        "no line break inside a boundary probe"
    );
    assert_eq!(
        PipelineError::StatOverflow.describe(),
        "record counter would overflow"
    );
}
