use vstd::prelude::*;
use vstd::utf8::*;
use crate::count::lemma_map_push;
use crate::error::Error;

verus! {

/// The pieces between NUL bytes, always one more than there are NUL bytes;
/// the last piece is empty when the stream is empty or ends in NUL.
pub open spec fn pieces(s: Seq<u8>) -> Seq<Seq<u8>>
    decreases s.len(),
{
    if s.len() == 0 {
        seq![Seq::empty()]
    } else {
        let p = pieces(s.drop_last());
        if s.last() == 0u8 {
            p.push(Seq::empty())
        } else {
            p.update(p.len() - 1, p.last().push(s.last()))
        }
    }
}

/// The segments of a NUL-separated list: a NUL ends a segment, and an empty
/// segment at the very end is no segment.
pub open spec fn split_nul(s: Seq<u8>) -> Seq<Seq<u8>> {
    let p = pieces(s);
    if p.last().len() == 0 {
        p.drop_last()
    } else {
        p
    }
}

/// The segments that are not valid UTF-8, in order.
pub open spec fn bad_segments(segs: Seq<Seq<u8>>) -> Seq<Seq<u8>>
    decreases segs.len(),
{
    if segs.len() == 0 {
        Seq::empty()
    } else {
        let b = bad_segments(segs.drop_last());
        if valid_utf8(segs.last()) {
            b
        } else {
            b.push(segs.last())
        }
    }
}

pub open spec fn views(v: Seq<Vec<u8>>) -> Seq<Seq<u8>> {
    v.map_values(|x: Vec<u8>| x@)
}

pub proof fn lemma_pieces_nonempty(s: Seq<u8>)
    ensures
        pieces(s).len() >= 1,
    decreases s.len(),
{
    if s.len() > 0 {
        lemma_pieces_nonempty(s.drop_last());
    }
}

/// Splits a byte stream at its NUL bytes.
pub fn split_nul_segments(data: &[u8]) -> (r: Vec<Vec<u8>>)
    ensures
        views(r@) == split_nul(data@),
{
    let mut segs: Vec<Vec<u8>> = Vec::new();
    let mut cur: Vec<u8> = Vec::new();
    let mut i: usize = 0;
    proof {
        assert(data@.subrange(0, 0) =~= Seq::<u8>::empty());
        assert(views(segs@).push(cur@) =~= pieces(Seq::<u8>::empty()));
    }
    while i < data.len()
        invariant
            i <= data@.len(),
            views(segs@).push(cur@) == pieces(data@.subrange(0, i as int)),
        decreases data@.len() - i,
    {
        let b = data[i];
        let ghost pre = data@.subrange(0, i as int);
        proof {
            assert(data@.subrange(0, i + 1).drop_last() =~= pre);
            assert(data@.subrange(0, i + 1).last() == b);
            lemma_pieces_nonempty(pre);
        }
        if b == 0u8 {
            proof {
                lemma_map_push(segs@, cur, |x: Vec<u8>| x@);
            }
            segs.push(cur);
            cur = Vec::new();
            proof {
                assert(views(segs@).push(cur@) =~= pieces(pre).push(Seq::empty()));
            }
        } else {
            cur.push(b);
            proof {
                assert(views(segs@).push(cur@) =~= pieces(pre).update(
                    pieces(pre).len() - 1,
                    pieces(pre).last().push(b),
                ));
            }
        }
        i = i + 1;
    }
    proof {
        assert(data@.subrange(0, i as int) =~= data@);
        assert(views(segs@).push(cur@).drop_last() =~= views(segs@));
    }
    if cur.len() > 0 {
        proof {
            lemma_map_push(segs@, cur, |x: Vec<u8>| x@);
        }
        segs.push(cur);
    }
    segs
}

/// Relies on String::from_utf8: the text when the bytes are valid UTF-8, and
/// otherwise the bytes back, through `FromUtf8Error::into_bytes`.
#[verifier::external_body]
fn text_from_utf8(bytes: &[u8]) -> (r: Result<String, Vec<u8>>)
    ensures
        r matches Ok(s) ==> valid_utf8(bytes@) && s@ == decode_utf8(bytes@),
        r matches Err(b) ==> !valid_utf8(bytes@) && b@ == bytes@,
{
    match String::from_utf8(bytes.to_vec()) {
        Ok(s) => Ok(s),
        Err(e) => Err(e.into_bytes()),
    }
}

/// Reads a NUL-separated list of paths. Every segment must be valid UTF-8;
/// otherwise the result is one error that lists each invalid segment, in
/// order, and never a partial list.
pub fn read_paths0_from(data: &[u8]) -> (r: Result<Vec<String>, Error>)
    ensures
        ({
            let segs = split_nul(data@);
            &&& r is Ok <==> forall|k: int| 0 <= k < segs.len() ==> valid_utf8(#[trigger] segs[k])
            &&& r matches Ok(paths) ==> paths@.len() == segs.len() && forall|k: int|
                0 <= k < segs.len() ==> (#[trigger] paths@[k])@ == decode_utf8(segs[k])
            &&& r matches Err(e) ==> e matches Error::MANY(errs) && errs@.len() == bad_segments(segs).len()
                && forall|k: int| 0 <= k < errs@.len() ==> (#[trigger] errs@[k] matches Error::PATH(b)
                && b@ == bad_segments(segs)[k])
        }),
{
    let segs = split_nul_segments(data);
    let ghost all = split_nul(data@);
    let mut paths: Vec<String> = Vec::new();
    let mut errs: Vec<Error> = Vec::new();
    let mut i: usize = 0;
    while i < segs.len()
        invariant
            views(segs@) == all,
            i <= segs@.len(),
            errs@.len() == bad_segments(all.subrange(0, i as int)).len(),
            forall|k: int| 0 <= k < errs@.len() ==> (#[trigger] errs@[k] matches Error::PATH(b)
                && b@ == bad_segments(all.subrange(0, i as int))[k]),
            (errs@.len() == 0) <==> forall|k: int| 0 <= k < i ==> valid_utf8(#[trigger] all[k]),
            errs@.len() == 0 ==> paths@.len() == i && forall|k: int|
                0 <= k < i ==> (#[trigger] paths@[k])@ == decode_utf8(all[k]),
        decreases segs@.len() - i,
    {
        let ghost pre = all.subrange(0, i as int);
        proof {
            assert(all.subrange(0, i + 1).drop_last() =~= pre);
            assert(all.subrange(0, i + 1).last() == all[i as int]);
            assert(segs@[i as int]@ == all[i as int]);
        }
        match text_from_utf8(segs[i].as_slice()) {
            Ok(s) => {
                paths.push(s);
            },
            Err(b) => {
                errs.push(Error::PATH(b));
            },
        }
        i = i + 1;
        proof {
            if errs@.len() == 0 {
                assert forall|k: int| 0 <= k < i implies valid_utf8(#[trigger] all[k]) by {
                    if k < i - 1 {
                    }
                }
            }
        }
    }
    assert(all.subrange(0, i as int) =~= all);
    if errs.len() > 0 {
        Err(Error::MANY(errs))
    } else {
        Ok(paths)
    }
}

} // verus!
