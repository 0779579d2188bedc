use qex::logcap::{
    count_lines, head_cut, head_window, parts, CapWriter, Dropped, LineEnd, Put, Ring, Walk, MARK,
    MIN_LIMIT,
};

/// One stream of one job, with its two files in the memory.
struct Job {
    writer: CapWriter,
    file: Vec<u8>,
    tail: Option<Vec<u8>>,
    /// True when the machine refuses the circular file.
    refuses_tail: bool,
}

fn job(max: Option<u64>) -> Job {
    again(Vec::new(), max)
}

fn again(file: Vec<u8>, max: Option<u64>) -> Job {
    Job {
        writer: CapWriter::new(file.len() as u64, max),
        file,
        tail: None,
        refuses_tail: false,
    }
}

impl Job {
    fn write(&mut self, buf: &[u8]) {
        let share = self.writer.write(buf.len());
        self.file.extend_from_slice(&buf[..share.head]);
        self.writer.wrote_head(share.head);
        let rest = &buf[share.head..];
        if rest.is_empty() {
            return;
        }
        if share.start {
            self.start();
        }
        for put in self.writer.push_overflow(rest) {
            let tail = self.tail.as_mut().unwrap();
            for (i, b) in rest[put.from..put.to].iter().enumerate() {
                let at = put.at as usize + i;
                if at < tail.len() {
                    tail[at] = *b;
                } else {
                    tail.push(*b);
                }
            }
            self.writer.wrote_tail(&put);
        }
    }

    fn start(&mut self) {
        let p = self.writer.parts.unwrap();
        let mut fragment = false;
        if let Some((start, len)) = self.writer.start_overflow() {
            let window = &self.file[start as usize..(start + len) as usize];
            let cut = self.writer.cut_head(p, head_cut(start, window));
            let gone = &self.file[cut.keep as usize..];
            let lines = count_lines(gone);
            self.file.truncate(cut.keep as usize);
            self.writer.wrote_cut(cut, lines);
            fragment = cut.fragment;
        }
        let note = CapWriter::start_note(p, fragment);
        self.file.extend_from_slice(note.as_bytes());
        if !self.refuses_tail {
            self.tail = Some(Vec::new());
            self.writer.made_tail();
        }
    }

    fn finish(&mut self) -> Dropped {
        let (ring, tail, p) = match (self.writer.tail, self.tail.take(), self.writer.parts) {
            (Some(ring), Some(tail), Some(p)) => (ring, tail, p),
            _ => {
                if let Some(note) = self.writer.finish_without_tail() {
                    self.file.extend_from_slice(note.as_bytes());
                }
                return self.writer.dropped;
            }
        };
        let mut search = LineEnd::new();
        for (start, len) in ring.segments() {
            search.read(&tail[start as usize..(start + len) as usize]);
        }
        let trim = self.writer.trims(ring, p, search.found);
        let mut walk = Walk::new(trim);
        let mut kept = Vec::new();
        for (start, len) in ring.segments() {
            let data = &tail[start as usize..(start + len) as usize];
            let from = walk.read(data);
            kept.extend_from_slice(&data[from..]);
        }
        let note = self.writer.finish(ring, p, trim, walk.bytes, walk.lines);
        self.file.extend_from_slice(note.as_bytes());
        self.file.extend_from_slice(&kept);
        self.writer.dropped
    }

    fn text(&self) -> String {
        String::from_utf8(self.file.clone()).unwrap()
    }

    fn size(&self) -> u64 {
        self.file.len() as u64
    }

    /// The bytes of the two files together.
    fn total(&self) -> u64 {
        self.size() + self.tail.as_ref().map_or(0, |t| t.len() as u64)
    }
}

/// Writes numbered lines, one line in each call.
fn write_lines(w: &mut Job, from: usize, to: usize) {
    for i in from..=to {
        w.write(format!("line-{i}\n").as_bytes());
    }
}

/// The head and the tail must both stay, and the file must say what went.
#[test]
fn the_first_lines_and_the_last_lines_stay_and_the_file_says_what_went() {
    let mut w = job(Some(64 * 1024));
    write_lines(&mut w, 1, 20000);
    let dropped = w.finish();

    let text = w.text();
    assert!(text.contains("line-1\n"), "the first line went");
    assert!(text.contains("line-20000\n"), "the last line went");
    assert!(
        !text.contains("line-10000\n"),
        "the middle must go, and it stayed"
    );
    assert!(dropped.bytes > 0 && dropped.lines > 0, "{dropped:?}");
    assert!(text.contains("are not in this file"), "the file must say what went");
    assert!(
        text.contains(&dropped.lines.to_string()),
        "the file must give the number of lines"
    );
    assert!(w.size() <= 64 * 1024, "the file is {} bytes", w.size());
}

/// The disk must stay below the limit WHILE THE JOB WRITES.
#[test]
fn the_disk_stays_below_the_limit_while_the_job_writes() {
    let limit = 32 * 1024;
    let mut w = job(Some(limit));
    for i in 1..=5000 {
        w.write(format!("line-{i} aaaaaaaaaaaaaaaaaaaaaaaaaaaaaaaaaa\n").as_bytes());
        if i % 100 == 0 {
            let total = w.total();
            assert!(total <= limit, "the disk holds {total} bytes at line {i}");
        }
    }
    w.finish();
    assert!(w.total() <= limit, "the disk holds {} bytes at the end", w.total());
}

/// Output that is below the limit must arrive complete, with no note.
#[test]
fn output_below_the_limit_arrives_complete() {
    let mut w = job(Some(MIN_LIMIT));
    write_lines(&mut w, 1, 20);
    let dropped = w.finish();

    let text = w.text();
    assert_eq!(dropped, Dropped::default());
    assert!(!text.contains(MARK), "qex wrote a note with no reason");
    assert_eq!(text.lines().count(), 20);
}

/// A limit of `None` keeps every byte.
#[test]
fn no_limit_keeps_every_byte() {
    let mut w = job(None);
    write_lines(&mut w, 1, 5000);
    let dropped = w.finish();

    assert_eq!(dropped, Dropped::default());
    assert_eq!(w.text().lines().count(), 5000);
}

/// A reader that opens the file WHILE the job writes must see that the job
/// wrote more.
#[test]
fn a_reader_sees_the_limit_before_the_job_stops() {
    let mut w = job(Some(32 * 1024));
    write_lines(&mut w, 1, 5000);
    assert!(
        w.text().contains("reached the limit"),
        "the file must say that the output continues"
    );
}

/// The limit belongs to the stream of the job, and not to one attempt.
#[test]
fn a_second_attempt_shares_the_limit_of_the_first() {
    let limit = 32 * 1024;
    let mut w = job(Some(limit));
    write_lines(&mut w, 1, 5000);
    w.finish();

    let mut w = again(w.file, Some(limit));
    write_lines(&mut w, 5001, 10000);
    let dropped = w.finish();

    assert!(w.size() <= limit, "two attempts hold {} bytes", w.size());
    assert!(dropped.bytes > 0, "the second attempt removed nothing");
    assert!(
        dropped.lines > 0,
        "the count of the lines must hold the lines of the first attempt"
    );
    let text = w.text();
    assert!(text.contains("line-1\n"), "the start of the job went");
    assert!(text.contains("line-10000\n"), "the last line went");
}

/// One write that is larger than the whole tail must not lose the end of that
/// write.
#[test]
fn one_write_that_is_larger_than_the_tail_keeps_its_end() {
    let mut w = job(Some(MIN_LIMIT));
    w.write(b"first\n");
    let mut big = vec![b'x'; 200 * 1024];
    big.extend_from_slice(b"\nTHE-END\n");
    w.write(&big);
    w.finish();

    let text = w.text();
    assert!(text.contains("first"), "the head went");
    assert!(text.contains("THE-END"), "the end of the write went");
    assert!(w.size() <= MIN_LIMIT);
}

/// Output with no line end must keep its last part.
#[test]
fn output_with_no_line_end_keeps_its_last_part() {
    let mut w = job(Some(MIN_LIMIT));
    w.write(b"the start of the output, and then one very long line: ");
    for _ in 0..40 {
        w.write(&vec![b'x'; 8 * 1024]);
    }
    w.write(b"THE-VERY-END");
    let dropped = w.finish();

    let text = w.text();
    assert!(text.contains("the start of the output"), "the head went");
    assert!(
        text.ends_with("THE-VERY-END"),
        "the end of the output went, and the file holds the head only"
    );
    // The tail must be a true tail, and not one line of the note.
    let kept = text.rfind(MARK).map(|i| text[i..].len()).unwrap_or(0);
    assert!(kept > 1000, "the tail holds {kept} bytes only");
    assert!(dropped.bytes > 0);
    assert!(
        text.contains("middle of a line"),
        "the file must say that the last part starts in the middle of a line"
    );
    assert!(w.size() <= MIN_LIMIT);
}

/// A second attempt must not remove output that fits in the limit.
#[test]
fn a_second_attempt_that_fits_the_limit_loses_nothing() {
    let limit = 1 << 20;
    let mut w = job(Some(limit));
    write_lines(&mut w, 1, 30000);
    let first = w.finish();
    assert_eq!(first, Dropped::default(), "the first attempt fits");
    assert!(w.size() < limit, "the test needs an attempt that fits");

    // The supervisor writes this mark between two attempts.
    let mut file = w.file;
    file.extend_from_slice(b"\n--- attempt 2 ---\n");

    let mut w = again(file, Some(limit));
    w.write(b"the second attempt\n");
    let second = w.finish();

    assert_eq!(
        second,
        Dropped::default(),
        "the second attempt removed data"
    );
    let text = w.text();
    assert!(!text.contains(MARK), "qex wrote a note with no reason");
    assert!(text.contains("line-1\n"), "the first attempt lost its start");
    assert!(text.contains("line-30000\n"), "the first attempt lost its end");
    assert!(
        text.contains("--- attempt 2 ---"),
        "the mark between the attempts went"
    );
    assert!(text.contains("the second attempt"));
}

/// A line end that is far into the tail must not cost the whole tail.
#[test]
fn a_line_end_that_is_far_into_the_tail_does_not_cost_the_tail() {
    let mut w = job(Some(MIN_LIMIT));
    w.write(b"the start\n");
    // A progress display: many parts, and no line end at all.
    for i in 0..4000 {
        w.write(format!("\rstep {i} of 4000").as_bytes());
    }
    w.write(b"\nBUILD FAILED: the compiler stopped\n");
    w.finish();

    let text = w.text();
    assert!(text.contains("BUILD FAILED"), "the last line went");
    // The tail must hold the work before the failure as well, and not the last
    // line alone.
    let tail = text.rsplit(MARK).next().unwrap_or("");
    assert!(
        tail.len() > 1000,
        "the tail holds {} bytes only, so the trim removed the output",
        tail.len()
    );
    assert!(
        text.contains("middle of a line"),
        "the file must say that the last part is not a whole line"
    );
    assert!(w.size() <= MIN_LIMIT);
}

/// A head with no line end near its cut keeps the fragment AND says so.
#[test]
fn a_head_that_cannot_cut_back_keeps_its_bytes_and_says_so() {
    let parts = parts(MIN_LIMIT);
    let mut w = job(Some(MIN_LIMIT));

    // One line end at the start, and then one line that never ends. The last
    // line end is thus far outside the window that qex looks in.
    w.write(b"the start of the job\n");
    for _ in 0..40 {
        w.write(&vec![b'x'; 8 * 1024]);
    }
    w.finish();

    let text = w.text();
    let head = &text[..text.find(MARK).expect("the file must hold a note of qex")];
    assert!(
        head.len() as u64 > parts.head / 2,
        "the head holds {} bytes of the {} that it must hold, so the cut back removed \
         the start of the output",
        head.len(),
        parts.head
    );
    assert!(head.starts_with("the start of the job\n"));
    assert!(
        text.contains("The line above is not complete"),
        "the head ends with a fragment of a line, and the file does not say so"
    );
    assert!(w.size() <= MIN_LIMIT);
}

/// A tail that starts in the middle of a line always says so, also where the
/// circular file did not return to its start.
#[test]
fn a_tail_that_starts_in_the_middle_of_a_line_says_so() {
    let body = "A".repeat(59);
    let mut w = job(Some(MIN_LIMIT));
    let mut written = 0u64;
    for i in 0..380 {
        let line = format!("{body}-{i}\n");
        written += line.len() as u64;
        w.write(line.as_bytes());
    }
    w.finish();

    let parts = parts(MIN_LIMIT);
    assert!(
        written > parts.fill && written - parts.fill <= parts.tail,
        "the job wrote {written} bytes; this test needs more than {} and not more \
         than {}",
        parts.fill,
        parts.fill + parts.tail
    );

    let text = w.text();
    let after = text.rsplit(MARK).next().unwrap_or("");
    let tail: Vec<&str> = after.lines().skip(1).collect();
    let first = tail.first().copied().unwrap_or("");
    let whole = first.starts_with(&body) && first[body.len()..].starts_with('-');
    assert!(
        whole || text.contains("middle of a line"),
        "the first line of the last part is `{first}`, which is the end of a line that \
         the reader cannot see, and the file does not say so"
    );
}

/// A machine that refuses the file for the tail must still stop the output, and
/// the count must say that the output is not complete.
#[test]
fn a_tail_file_that_the_machine_refuses_still_stops_the_output() {
    let mut written = 0u64;
    let mut lines = 0u64;
    let mut w = job(Some(MIN_LIMIT));
    w.refuses_tail = true;
    for i in 1..=20000 {
        let line = format!("line-{i}\n");
        written += line.len() as u64;
        lines += 1;
        w.write(line.as_bytes());
    }
    let dropped = w.finish();
    assert!(w.size() <= MIN_LIMIT, "the file holds {} bytes", w.size());

    // THE COUNT MUST BALANCE TO THE BYTE. The head is every byte before the
    // first note of qex.
    let text = w.text();
    let kept_text = &text[..text.find(MARK).expect("the file must hold a note of qex")];
    assert!(
        kept_text.ends_with('\n'),
        "the head must end at a line end, and it ends `{}`",
        &kept_text[kept_text.len().saturating_sub(12)..]
    );
    let kept = kept_text.len() as u64;
    assert_eq!(dropped.bytes, written - kept);
    assert_eq!(dropped.lines, lines - count_lines(kept_text.as_bytes()));
    assert_eq!(
        text.matches("reached the limit").count(),
        1,
        "the note must appear one time"
    );
    assert!(
        text.contains("are not in this file"),
        "the file promises a last part that never arrives, and it gives no count"
    );
    assert!(
        text.contains("could not make the file for the last part"),
        "the file must say why the last part is missing"
    );
}

/// With short lines, the last part must start at a WHOLE line.
#[test]
fn the_last_part_of_short_lines_starts_at_a_whole_line() {
    let mut w = job(Some(64 * 1024));
    write_lines(&mut w, 1, 20000);
    w.finish();

    let text = w.text();
    // The last note of qex is the last line before the tail.
    let tail = text
        .rsplit_once(&format!("{MARK} The limit is"))
        .expect("the file must hold the note about the limit")
        .1;
    let first = tail.lines().nth(1).expect("the last part is empty");
    assert!(
        first.starts_with("line-"),
        "the last part starts with `{first}`, which is the end of a line and not a \
         whole line"
    );
    assert!(
        !text.contains("middle of a line"),
        "qex removed the fragment, so the file must not say that one stayed"
    );

    // Every line of the last part is a line that the job wrote.
    for line in tail.lines().skip(1).filter(|l| !l.is_empty()) {
        let n: u64 = line
            .strip_prefix("line-")
            .unwrap_or("")
            .parse()
            .unwrap_or_else(|_| panic!("`{line}` is not a line that the job wrote"));
        assert!((1..=20000).contains(&n), "`{line}` is not in the output");
    }
}

/// The parts of the limit must never be larger than the limit itself. The two
/// files exist together while the job operates.
#[test]
fn the_parts_of_the_limit_fit_the_limit() {
    for max in [MIN_LIMIT, 1 << 20, 32 << 20, 1 << 30] {
        let p = parts(max);
        assert!(
            p.head + p.tail <= max,
            "the parts of {max} are larger than the limit"
        );
        assert!(p.tail > p.head, "the tail must hold more than the head");
    }
    let p = parts(16384);
    assert_eq!((p.head, p.tail, p.fill, p.max), (4096, 10240, 14336, 16384));
}

#[test]
fn every_byte_of_a_stream_is_kept_or_counted() {
    for lines in [100, 2000, 5000] {
        let mut w = job(Some(MIN_LIMIT));
        write_lines(&mut w, 1, lines);
        let dropped = w.finish();
        let text = w.text();
        let kept: Vec<&str> = text.lines().filter(|l| l.starts_with("line-")).collect();
        let kept_bytes: usize = kept.iter().map(|l| l.len() + 1).sum();
        let written: usize = (1..=lines).map(|i| format!("line-{i}\n").len()).sum();
        assert_eq!(dropped.lines as usize, lines - kept.len());
        assert_eq!(dropped.bytes as usize, written - kept_bytes);
    }
}

#[test]
fn a_ring_writes_in_at_most_two_places() {
    let mut ring = Ring::new(10);
    assert_eq!(ring.write(4), vec![Put { at: 0, from: 0, to: 4 }]);
    ring.wrote(&Put { at: 0, from: 0, to: 4 });
    assert_eq!(ring.segments(), [(0, 4), (0, 0)]);
    let puts = ring.write(8);
    assert_eq!(
        puts,
        vec![Put { at: 4, from: 0, to: 6 }, Put { at: 0, from: 6, to: 8 }]
    );
    for put in &puts {
        ring.wrote(put);
    }
    assert_eq!(ring.segments(), [(2, 8), (0, 2)]);
    // Only the last bytes of a large part are written.
    let puts = ring.write(25);
    assert_eq!(puts[0].from, 15);
}

#[test]
fn the_cut_of_a_head_falls_after_a_line_end() {
    assert_eq!(head_window(4096), (3072, 1024));
    assert_eq!(head_window(0), (0, 0));
    assert_eq!(head_cut(100, b"ab\ncd\nef"), Some(106));
    assert_eq!(head_cut(100, b"abc"), None);
    assert_eq!(count_lines(b"a\nb\n\n"), 3);
}

#[test]
fn the_first_fault_of_the_machine_stays() {
    let mut w = CapWriter::new(0, None);
    assert!(w.record_fault("no space"));
    assert!(!w.record_fault("no space again"));
    assert_eq!(w.fault.as_deref(), Some("no space"));
}
