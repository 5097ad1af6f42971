//! Ordered assembly of generated audio segments into one playable byte stream.
//!
//! A single segment is returned unchanged; several segments are joined by
//! byte-for-byte concatenation, the stream-copy contract of the external
//! concatenation tool.  [`build_concat_manifest`] renders the manifest that
//! drives the external tool when the application prefers it over the
//! in-process concatenation.

use vstd::prelude::*;

verus! {

/// Sum of the byte lengths of all segments.
pub open spec fn sum_lens(segs: Seq<Seq<u8>>) -> int
    decreases segs.len(),
{
    if segs.len() == 0 {
        0
    } else {
        segs.first().len() + sum_lens(segs.drop_first())
    }
}

/// A flattened sequence of segments is exactly as long as the sum of the
/// segment lengths: stream-copy concatenation adds no overhead.
pub proof fn lemma_concat_len_is_sum(segs: Seq<Seq<u8>>)
    ensures
        segs.flatten().len() == sum_lens(segs),
    decreases segs.len(),
{
    if segs.len() == 0 {
    } else {
        lemma_concat_len_is_sum(segs.drop_first());
    }
}

/// Byte-for-byte concatenation of the segments, in order.
#[verifier::loop_isolation(false)]
pub fn concat_segments(segments: &Vec<Vec<u8>>) -> (out: Vec<u8>)
    ensures
        out@ == segments.deep_view().flatten(),
{
    broadcast use vstd::seq_lib::group_seq_lib_default;

    let ghost dv = segments.deep_view();
    let mut out: Vec<u8> = Vec::new();
    proof {
        assert(dv.take(0) =~= Seq::<Seq<u8>>::empty());
    }
    let mut i: usize = 0;
    while i < segments.len()
        invariant
            i <= segments.len(),
            out@ == dv.take(i as int).flatten(),
        decreases segments.len() - i,
    {
        let seg = &segments[i];
        let mut j: usize = 0;
        while j < seg.len()
            invariant
                j <= seg.len(),
                out@ == dv.take(i as int).flatten() + seg@.take(j as int),
            decreases seg.len() - j,
        {
            proof {
                assert(seg@.take(j + 1) =~= seg@.take(j as int).push(seg@[j as int]));
            }
            out.push(seg[j]);
            j = j + 1;
        }
        proof {
            assert(seg@.take(seg@.len() as int) =~= seg@);
            assert(dv.take(i + 1) =~= dv.take(i as int).push(dv[i as int]));
            dv.take(i as int).lemma_flatten_push(dv[i as int]);
            assert(dv[i as int] == seg@);
        }
        i = i + 1;
    }
    proof {
        assert(dv.take(segments.len() as int) =~= dv);
    }
    out
}

/// Assemble the ordered audio segments of one generation run.
///
/// No segments yields nothing.  A single segment is handed back unchanged,
/// without any concatenation step.  Several segments are concatenated in
/// order, byte for byte.
pub fn assemble_audio(segments: Vec<Vec<u8>>) -> (out: Option<Vec<u8>>)
    ensures
        segments@.len() == 0 <==> out is None,
        segments@.len() >= 1 ==> (out matches Some(b) && b@ == segments.deep_view().flatten()),
        segments@.len() == 1 ==> (out matches Some(b) && b@ == segments.deep_view()[0]),
{
    let ghost dv = segments.deep_view();
    if segments.len() == 0 {
        None
    } else if segments.len() == 1 {
        let mut segments = segments;
        let only = segments.pop().unwrap();
        proof {
            assert(dv =~~= seq![only@]);
            assert(dv.drop_first() =~= Seq::<Seq<u8>>::empty());
            assert(dv.flatten() =~= dv.first() + dv.drop_first().flatten());
            assert(dv.flatten() =~= only@);
        }
        Some(only)
    } else {
        Some(concat_segments(&segments))
    }
}

/// One line of the external tool's concat manifest: `file '<path>'` and a
/// newline, as bytes.
pub open spec fn manifest_line(path: Seq<u8>) -> Seq<u8> {
    seq![102u8, 105u8, 108u8, 101u8, 32u8, 39u8] + path + seq![39u8, 10u8]
}

/// The whole manifest: one line per input file, in playback order.
pub open spec fn manifest_of(paths: Seq<Seq<u8>>) -> Seq<u8>
    decreases paths.len(),
{
    if paths.len() == 0 {
        Seq::empty()
    } else {
        manifest_of(paths.drop_last()) + manifest_line(paths.last())
    }
}

/// Render the newline-delimited concat manifest for the given ordered file
/// paths (UTF-8 bytes).
#[verifier::loop_isolation(false)]
pub fn build_concat_manifest(paths: &Vec<Vec<u8>>) -> (m: Vec<u8>)
    ensures
        m@ == manifest_of(paths.deep_view()),
{
    let ghost dv = paths.deep_view();
    let mut m: Vec<u8> = Vec::new();
    proof {
        assert(dv.take(0) =~= Seq::<Seq<u8>>::empty());
    }
    let mut i: usize = 0;
    while i < paths.len()
        invariant
            i <= paths.len(),
            m@ == manifest_of(dv.take(i as int)),
        decreases paths.len() - i,
    {
        let ghost m0 = m@;
        let p = &paths[i];
        m.push(102u8);  // f
        m.push(105u8);  // i
        m.push(108u8);  // l
        m.push(101u8);  // e
        m.push(32u8);  // space
        m.push(39u8);  // '
        let mut j: usize = 0;
        while j < p.len()
            invariant
                j <= p.len(),
                m@ == m0 + seq![102u8, 105u8, 108u8, 101u8, 32u8, 39u8] + p@.take(j as int),
            decreases p.len() - j,
        {
            proof {
                assert(p@.take(j + 1) =~= p@.take(j as int).push(p@[j as int]));
            }
            m.push(p[j]);
            j = j + 1;
        }
        m.push(39u8);  // '
        m.push(10u8);  // newline
        proof {
            assert(p@.take(p@.len() as int) =~= p@);
            assert(dv.take(i + 1).drop_last() =~= dv.take(i as int));
            assert(dv.take(i + 1).last() == p@);
            assert(m@ =~= manifest_of(dv.take(i as int)) + manifest_line(p@));
        }
        i = i + 1;
    }
    proof {
        assert(dv.take(paths.len() as int) =~= dv);
    }
    m
}

} // verus!
