//! Framing a byte stream of concatenated JSON objects, one object per event.
use vstd::prelude::*;

verus! {

/// Where a scan of the stream stands: how deep in braces, and whether inside a string
/// (after a backslash, when `escaped`).
pub ghost struct ScanState {
    pub depth: nat,
    pub in_string: bool,
    pub escaped: bool,
}

pub open spec fn start_state() -> ScanState {
    ScanState { depth: 0, in_string: false, escaped: false }
}

/// One byte of the scan. Quotes open strings only inside an object; braces inside strings
/// do not count.
pub open spec fn scan_step(st: ScanState, b: u8) -> ScanState {
    if st.in_string {
        if st.escaped {
            ScanState { escaped: false, ..st }
        } else if b == 92 {
            ScanState { escaped: true, ..st }
        } else if b == 34 {
            ScanState { in_string: false, ..st }
        } else {
            st
        }
    } else if b == 34 && st.depth > 0 {
        ScanState { in_string: true, ..st }
    } else if b == 123 {
        ScanState { depth: st.depth + 1, ..st }
    } else if b == 125 && st.depth > 0 {
        ScanState { depth: (st.depth - 1) as nat, ..st }
    } else {
        st
    }
}

/// The state of the scan after the first `n` bytes.
pub open spec fn scan(bytes: Seq<u8>, n: int) -> ScanState
    decreases n,
{
    if n <= 0 {
        start_state()
    } else {
        scan_step(scan(bytes, n - 1), bytes[n - 1])
    }
}

/// An object opens at `s`: a brace met outside every object.
pub open spec fn opens_at(bytes: Seq<u8>, s: int) -> bool {
    0 <= s < bytes.len() && scan(bytes, s).depth == 0 && bytes[s] == 123
}

/// The bytes from `s` up to `t` are one whole object.
pub open spec fn is_frame(bytes: Seq<u8>, s: int, t: int) -> bool {
    &&& opens_at(bytes, s)
    &&& s < t <= bytes.len()
    &&& scan(bytes, t).depth == 0
    &&& forall|j: int| s < j < t ==> (#[trigger] scan(bytes, j)).depth > 0
}

/// Some frame of `frames` starts at `s`.
pub open spec fn starts_frame(frames: Seq<(usize, usize)>, s: int) -> bool {
    exists|k: int| 0 <= k < frames.len() && (#[trigger] frames[k]).0 == s
}

proof fn lemma_outside_strings(bytes: Seq<u8>, n: int)
    requires
        0 <= n <= bytes.len(),
    ensures
        scan(bytes, n).depth == 0 ==> !scan(bytes, n).in_string,
        !scan(bytes, n).in_string ==> !scan(bytes, n).escaped,
    decreases n,
{
    if n > 0 {
        lemma_outside_strings(bytes, n - 1);
    }
}

/// Splits `bytes` into its objects: the frames of the whole objects in order, and where an
/// object opens that never closes (the length of `bytes` if none does). Bytes between objects
/// are skipped.
pub fn split_events(bytes: &[u8]) -> (r: (Vec<(usize, usize)>, usize))
    ensures
        r.1 <= bytes@.len(),
        forall|k: int|
            0 <= k < r.0@.len() ==> is_frame(bytes@, (#[trigger] r.0@[k]).0 as int, r.0@[k].1 as int)
                && r.0@[k].1 <= r.1,
        forall|k: int, l: int|
            0 <= k < l < r.0@.len() ==> (#[trigger] r.0@[k]).1 <= (#[trigger] r.0@[l]).0,
        forall|s: int| 0 <= s < r.1 && #[trigger] opens_at(bytes@, s) ==> starts_frame(r.0@, s),
        r.1 < bytes@.len() ==> opens_at(bytes@, r.1 as int) && forall|j: int|
            r.1 < j <= bytes@.len() ==> (#[trigger] scan(bytes@, j)).depth > 0,
{
    let mut frames: Vec<(usize, usize)> = Vec::new();
    let mut depth: usize = 0;
    let mut in_string = false;
    let mut escaped = false;
    let mut start: usize = 0;
    let mut i: usize = 0;
    while i < bytes.len()
        invariant
            i <= bytes@.len(),
            scan(bytes@, i as int) == (ScanState { depth: depth as nat, in_string, escaped }),
            depth <= i,
            start <= i,
            depth > 0 ==> opens_at(bytes@, start as int) && forall|j: int|
                start < j <= i ==> (#[trigger] scan(bytes@, j)).depth > 0,
            forall|k: int|
                0 <= k < frames@.len() ==> is_frame(
                    bytes@,
                    (#[trigger] frames@[k]).0 as int,
                    frames@[k].1 as int,
                ) && frames@[k].1 <= i && (depth > 0 ==> frames@[k].1 <= start),
            forall|k: int, l: int|
                0 <= k < l < frames@.len() ==> (#[trigger] frames@[k]).1 <= (#[trigger] frames@[l]).0,
            forall|s: int|
                0 <= s < i && #[trigger] opens_at(bytes@, s) ==> starts_frame(frames@, s) || (
                depth > 0 && s == start),
        decreases bytes.len() - i,
    {
        let b = bytes[i];
        let ghost before = scan(bytes@, i as int);
        let ghost f0 = frames@;
        let ghost st0 = start;
        proof {
            lemma_outside_strings(bytes@, i as int);
        }
        let opening = depth == 0 && b == 123u8;
        if in_string {
            if escaped {
                escaped = false;
            } else if b == 92u8 {
                escaped = true;
            } else if b == 34u8 {
                in_string = false;
            }
        } else if b == 34u8 && depth > 0 {
            in_string = true;
        } else if b == 123u8 {
            depth = depth + 1;
        } else if b == 125u8 && depth > 0 {
            depth = depth - 1;
            if depth == 0 {
                frames.push((start, i + 1));
            }
        }
        if opening {
            start = i;
        }
        i = i + 1;
        proof {
            assert(scan(bytes@, i as int) == scan_step(before, b));
            assert forall|k: int| 0 <= k < f0.len() implies frames@[k] == f0[k] by {}
            if frames@.len() > f0.len() {
                assert(is_frame(bytes@, st0 as int, i as int));
            }
            assert forall|s: int|
                0 <= s < i && #[trigger] opens_at(bytes@, s) implies starts_frame(frames@, s) || (
                depth > 0 && s == start) by {
                if s < i - 1 {
                    if starts_frame(f0, s) {
                        let k = choose|k: int| 0 <= k < f0.len() && (#[trigger] f0[k]).0 == s;
                        assert(frames@[k].0 == s);
                    } else if depth == 0 {
                        assert(frames@[f0.len() as int].0 == s);
                    }
                }
            }
        }
    }
    (frames, if depth > 0 { start } else { bytes.len() })
}

} // verus!
