//! Reading a segment back as the sequence of commands it records, and the
//! store contents that replaying those commands gives.
use vstd::prelude::*;
use crate::codec::{Command, CommandView, Decoded, spec_decode, spec_serialize, fits, deserialize, lemma_decode_serialize, lemma_serialize_decoded, lemma_decode_cut};
use crate::error::{KvsError, Result};
use crate::segments::Location;

verus! {

/// The contents after one command.
pub open spec fn apply(m: Map<Seq<char>, Seq<char>>, c: CommandView) -> Map<Seq<char>, Seq<char>> {
    match c {
        CommandView::Put { key, value } => m.insert(key, value),
        CommandView::Remove { key } => m.remove(key),
    }
}

/// The contents after the commands `cs`, in order.
pub open spec fn apply_all(m: Map<Seq<char>, Seq<char>>, cs: Seq<CommandView>) -> Map<
    Seq<char>,
    Seq<char>,
>
    decreases cs.len(),
{
    if cs.len() == 0 {
        m
    } else {
        apply_all(apply(m, cs[0]), cs.drop_first())
    }
}

/// The commands that the bytes of a segment record, in order. A record cut
/// short at the end is dropped where the segment is the last one (a write
/// that a crash interrupted); `None` where the bytes are corrupt.
pub open spec fn parse_segment(b: Seq<u8>, last: bool) -> Option<Seq<CommandView>>
    decreases b.len(),
{
    if b.len() == 0 {
        Some(Seq::empty())
    } else {
        match spec_decode(b) {
            Decoded::Record(c, n) => if 0 < n <= b.len() {
                match parse_segment(b.subrange(n as int, b.len() as int), last) {
                    Some(rest) => Some(seq![c] + rest),
                    None => None,
                }
            } else {
                None
            },
            Decoded::Truncated => if last {
                Some(Seq::empty())
            } else {
                None
            },
            _ => None,
        }
    }
}

/// Applying `a + b` is applying `a`, then `b`.
pub proof fn lemma_apply_all_concat(m: Map<Seq<char>, Seq<char>>, a: Seq<CommandView>, b: Seq<CommandView>)
    ensures
        apply_all(m, a + b) == apply_all(apply_all(m, a), b),
    decreases a.len(),
{
    if a.len() == 0 {
        assert(a + b =~= b);
    } else {
        assert((a + b).drop_first() =~= a.drop_first() + b);
        lemma_apply_all_concat(apply(m, a[0]), a.drop_first(), b);
    }
}

/// Applying one more command.
pub proof fn lemma_apply_all_push(m: Map<Seq<char>, Seq<char>>, a: Seq<CommandView>, c: CommandView)
    ensures
        apply_all(m, a.push(c)) == apply(apply_all(m, a), c),
{
    lemma_apply_all_concat(m, a, seq![c]);
    assert(a + seq![c] =~= a.push(c));
    assert(seq![c].drop_first() =~= Seq::<CommandView>::empty());
    let x = apply_all(m, a);
    assert(apply_all(apply(x, c), Seq::<CommandView>::empty()) == apply(x, c));
    assert(apply_all(x, seq![c]) == apply_all(apply(x, seq![c][0]), seq![c].drop_first()));
}

/// The effect on `k` of the latest command in `cs` that names it:
/// `Some(Some(v))` for a `Put` of `v`, `Some(None)` for a `Remove`, and
/// `None` where no command names `k`.
pub open spec fn latest(cs: Seq<CommandView>, k: Seq<char>) -> Option<Option<Seq<char>>>
    decreases cs.len(),
{
    if cs.len() == 0 {
        None
    } else {
        match cs.last() {
            CommandView::Put { key, value } => if key == k {
                Some(Some(value))
            } else {
                latest(cs.drop_last(), k)
            },
            CommandView::Remove { key } => if key == k {
                Some(None)
            } else {
                latest(cs.drop_last(), k)
            },
        }
    }
}

/// After any sequence of commands on an empty store, a key holds the value
/// of the latest `Put` to it, and nothing where the latest command naming
/// it is a `Remove` or no command names it.
pub proof fn lemma_latest_write_wins(cs: Seq<CommandView>, k: Seq<char>)
    ensures
        apply_all(Map::empty(), cs).get(k) == match latest(cs, k) {
            Some(r) => r,
            None => None,
        },
    decreases cs.len(),
{
    if cs.len() > 0 {
        let init = cs.drop_last();
        lemma_latest_write_wins(init, k);
        lemma_apply_all_push(Map::empty(), init, cs.last());
        assert(init.push(cs.last()) =~= cs);
    }
}

/// The commands of all segments, oldest segment first.
pub open spec fn parse_log(segs: Seq<Seq<u8>>) -> Option<Seq<CommandView>>
    decreases segs.len(),
{
    if segs.len() == 0 {
        Some(Seq::empty())
    } else {
        match parse_segment(segs[0], segs.len() == 1) {
            Some(cs) => match parse_log(segs.drop_first()) {
                Some(rest) => Some(cs + rest),
                None => None,
            },
            None => None,
        }
    }
}

/// The commands of all segments, oldest segment first, where every segment
/// holds whole records only.
pub open spec fn strict_log(segs: Seq<Seq<u8>>) -> Option<Seq<CommandView>>
    decreases segs.len(),
{
    if segs.len() == 0 {
        Some(Seq::empty())
    } else {
        match parse_segment(segs[0], false) {
            Some(cs) => match strict_log(segs.drop_first()) {
                Some(rest) => Some(cs + rest),
                None => None,
            },
            None => None,
        }
    }
}

/// A segment of whole records parses the same way whether or not it is the
/// last one.
pub proof fn lemma_strict_segment(b: Seq<u8>)
    requires
        parse_segment(b, false) is Some,
    ensures
        parse_segment(b, true) == parse_segment(b, false),
    decreases b.len(),
{
    if b.len() > 0 {
        if let Decoded::Record(c, n) = spec_decode(b) {
            lemma_strict_segment(b.subrange(n as int, b.len() as int));
        }
    }
}

/// A log of whole records replays as its commands.
pub proof fn lemma_strict_log(segs: Seq<Seq<u8>>)
    requires
        strict_log(segs) is Some,
    ensures
        parse_log(segs) == strict_log(segs),
    decreases segs.len(),
{
    if segs.len() > 0 {
        lemma_strict_segment(segs[0]);
        lemma_strict_log(segs.drop_first());
    }
}

/// Adding a segment to a log of whole records.
pub proof fn lemma_strict_log_push(segs: Seq<Seq<u8>>, a: Seq<u8>)
    ensures
        strict_log(segs.push(a)) == match (strict_log(segs), parse_segment(a, false)) {
            (Some(x), Some(y)) => Some(x + y),
            _ => None,
        },
    decreases segs.len(),
{
    if segs.len() == 0 {
        assert(segs.push(a).drop_first() =~= Seq::<Seq<u8>>::empty());
        if let Some(y) = parse_segment(a, false) {
            assert(y + Seq::<CommandView>::empty() =~= y);
            assert(Seq::<CommandView>::empty() + y =~= y);
        }
    } else {
        assert(segs.push(a).drop_first() =~= segs.drop_first().push(a));
        assert(segs.push(a)[0] == segs[0]);
        lemma_strict_log_push(segs.drop_first(), a);
        if let (Some(x), Some(y)) = (strict_log(segs), parse_segment(a, false)) {
            let c0 = parse_segment(segs[0], false).unwrap();
            let r = strict_log(segs.drop_first()).unwrap();
            assert(c0 + (r + y) =~= (c0 + r) + y);
        }
    }
}

/// Segment bytes of whole records, followed by more bytes.
pub proof fn lemma_parse_concat(b: Seq<u8>, t: Seq<u8>, last: bool)
    requires
        parse_segment(b, false) is Some,
    ensures
        parse_segment(b + t, last) == match parse_segment(t, last) {
            Some(r) => Some(parse_segment(b, false).unwrap() + r),
            None => None,
        },
    decreases b.len(),
{
    if b.len() == 0 {
        assert(b + t =~= t);
        if let Some(r) = parse_segment(t, last) {
            assert(Seq::<CommandView>::empty() + r =~= r);
        }
    } else {
        lemma_serialize_decoded(b);
        if let Decoded::Record(c, n) = spec_decode(b) {
            let rest = b.subrange(n as int, b.len() as int);
            assert(b =~= spec_serialize(c) + rest);
            assert(b + t =~= spec_serialize(c) + (rest + t));
            lemma_decode_serialize(c, rest + t);
            assert((b + t).subrange(n as int, (b + t).len() as int) =~= rest + t);
            lemma_parse_concat(rest, t, last);
            if let Some(r) = parse_segment(t, last) {
                let rc = parse_segment(rest, false).unwrap();
                assert(seq![c] + (rc + r) =~= (seq![c] + rc) + r);
            }
        }
    }
}

/// One record parses as its command.
pub proof fn lemma_parse_one(c: CommandView, last: bool)
    requires
        fits(c),
    ensures
        parse_segment(spec_serialize(c), last) == Some(seq![c]),
{
    lemma_decode_serialize(c, Seq::empty());
    let b = spec_serialize(c);
    assert(b + Seq::<u8>::empty() =~= b);
    lemma_serialize_decoded(b);
    assert(b.subrange(b.len() as int, b.len() as int) =~= Seq::<u8>::empty());
    assert(parse_segment(Seq::<u8>::empty(), last) == Some(Seq::<CommandView>::empty()));
    assert(seq![c] + Seq::<CommandView>::empty() =~= seq![c]);
}

/// A segment of whole records with one more record appended.
pub proof fn lemma_parse_append(b: Seq<u8>, c: CommandView)
    requires
        parse_segment(b, false) is Some,
        fits(c),
    ensures
        parse_segment(b + spec_serialize(c), false) == Some(
            parse_segment(b, false).unwrap().push(c),
        ),
{
    lemma_parse_one(c, false);
    lemma_parse_concat(b, spec_serialize(c), false);
    assert(parse_segment(b, false).unwrap() + seq![c] =~= parse_segment(b, false).unwrap().push(c));
}

/// The contents that replaying the segments gives, or `None` where they are
/// corrupt.
pub open spec fn recover(segs: Seq<Seq<u8>>) -> Option<Map<Seq<char>, Seq<char>>> {
    match parse_log(segs) {
        Some(cs) => Some(apply_all(Map::empty(), cs)),
        None => None,
    }
}

/// The records of the commands `cs`, one after the other.
pub open spec fn records(cs: Seq<CommandView>) -> Seq<u8>
    decreases cs.len(),
{
    if cs.len() == 0 {
        Seq::empty()
    } else {
        spec_serialize(cs[0]) + records(cs.drop_first())
    }
}

/// The records of `cs` followed by `tail` parse as `cs` followed by what
/// `tail` parses as.
pub proof fn lemma_parse_records(cs: Seq<CommandView>, tail: Seq<u8>, last: bool)
    requires
        forall|i: int| 0 <= i < cs.len() ==> fits(#[trigger] cs[i]),
    ensures
        parse_segment(records(cs) + tail, last) == match parse_segment(tail, last) {
            Some(r) => Some(cs + r),
            None => None,
        },
    decreases cs.len(),
{
    if cs.len() == 0 {
        assert(records(cs) + tail =~= tail);
        match parse_segment(tail, last) {
            Some(r) => {
                assert(cs + r =~= r);
            },
            None => {},
        }
    } else {
        let c = cs[0];
        let rest = cs.drop_first();
        assert(fits(cs[0]));
        assert forall|i: int| 0 <= i < rest.len() implies fits(#[trigger] rest[i]) by {
            assert(rest[i] == cs[i + 1]);
        }
        lemma_parse_records(rest, tail, last);
        let b = records(cs) + tail;
        assert(b =~= spec_serialize(c) + (records(rest) + tail));
        lemma_decode_serialize(c, records(rest) + tail);
        let n = spec_serialize(c).len();
        assert(b.subrange(n as int, b.len() as int) =~= records(rest) + tail);
        lemma_serialize_decoded(b);
        match parse_segment(tail, last) {
            Some(r) => {
                assert(seq![c] + (rest + r) =~= cs + r);
            },
            None => {},
        }
    }
}

/// Crash recovery: where the records of the commands `cs` were written in
/// full and the record of one more command `c` only in part, replaying the
/// segment gives exactly `cs`, and the contents after them.
pub proof fn lemma_crash_recovery(cs: Seq<CommandView>, c: CommandView, cut: int)
    requires
        forall|i: int| 0 <= i < cs.len() ==> fits(#[trigger] cs[i]),
        fits(c),
        0 <= cut < spec_serialize(c).len(),
    ensures
        parse_segment(records(cs) + spec_serialize(c).subrange(0, cut), true) == Some(cs),
        recover(seq![records(cs) + spec_serialize(c).subrange(0, cut)]) == Some(
            apply_all(Map::empty(), cs),
        ),
{
    let tail = spec_serialize(c).subrange(0, cut);
    lemma_decode_cut(c, cut);
    assert(parse_segment(tail, true) == Some(Seq::<CommandView>::empty()));
    lemma_parse_records(cs, tail, true);
    assert(cs + Seq::<CommandView>::empty() =~= cs);
    let segs = seq![records(cs) + tail];
    assert(segs.drop_first() =~= Seq::<Seq<u8>>::empty());
    assert(parse_log(segs.drop_first()) == Some(Seq::<CommandView>::empty()));
}

/// A log whose earlier segments hold whole records replays as their
/// commands followed by what its last segment parses as.
pub proof fn lemma_parse_log_last(segs: Seq<Seq<u8>>, last: Seq<u8>)
    requires
        strict_log(segs) is Some,
    ensures
        parse_log(segs.push(last)) == match parse_segment(last, true) {
            Some(r) => Some(strict_log(segs).unwrap() + r),
            None => None,
        },
    decreases segs.len(),
{
    if segs.len() == 0 {
        assert(segs.push(last).drop_first() =~= Seq::<Seq<u8>>::empty());
        if let Some(r) = parse_segment(last, true) {
            assert(r + Seq::<CommandView>::empty() =~= r);
            assert(Seq::<CommandView>::empty() + r =~= r);
        }
    } else {
        assert(segs.push(last).drop_first() =~= segs.drop_first().push(last));
        assert(segs.push(last)[0] == segs[0]);
        lemma_parse_log_last(segs.drop_first(), last);
        if let Some(r) = parse_segment(last, true) {
            let c0 = parse_segment(segs[0], false).unwrap();
            let rest = strict_log(segs.drop_first()).unwrap();
            assert(c0 + (rest + r) =~= (c0 + rest) + r);
        }
    }
}

/// Crash recovery over several segments: where the earlier segments hold
/// whole records and the last one holds the records of `cs` followed by the
/// record of `c` cut short, replaying the log gives the earlier segments'
/// commands and `cs`, and nothing of `c`.
pub proof fn lemma_crash_recovery_log(
    sealed: Seq<Seq<u8>>,
    cs: Seq<CommandView>,
    c: CommandView,
    cut: int,
)
    requires
        strict_log(sealed) is Some,
        forall|i: int| 0 <= i < cs.len() ==> fits(#[trigger] cs[i]),
        fits(c),
        0 <= cut < spec_serialize(c).len(),
    ensures
        recover(sealed.push(records(cs) + spec_serialize(c).subrange(0, cut))) == Some(
            apply_all(Map::empty(), strict_log(sealed).unwrap() + cs),
        ),
{
    lemma_crash_recovery(cs, c, cut);
    lemma_parse_log_last(sealed, records(cs) + spec_serialize(c).subrange(0, cut));
}

/// The views of the commands of `recs`.
pub open spec fn commands_of(recs: Seq<(Command, Location)>) -> Seq<CommandView> {
    recs.map_values(|r: (Command, Location)| r.0@)
}

/// The total length of the records of `recs`.
pub open spec fn recs_len(recs: Seq<(Command, Location)>) -> int
    decreases recs.len(),
{
    if recs.len() == 0 {
        0
    } else {
        recs_len(recs.drop_last()) + recs.last().1.len
    }
}

/// The first `k` records are one record longer than the first `k - 1`, and
/// no longer than all of them.
pub proof fn lemma_recs_len_take(recs: Seq<(Command, Location)>, k: int)
    requires
        0 <= k <= recs.len(),
    ensures
        0 <= recs_len(recs.take(k)) <= recs_len(recs),
        k < recs.len() ==> recs_len(recs.take(k + 1)) == recs_len(recs.take(k)) + recs[k].1.len,
    decreases recs.len(),
{
    if k < recs.len() {
        assert(recs.take(k + 1).drop_last() =~= recs.take(k));
        lemma_recs_len_take(recs.drop_last(), k);
        assert(recs.drop_last().take(k) =~= recs.take(k));
    } else {
        assert(recs.take(k) =~= recs);
        if recs.len() > 0 {
            lemma_recs_len_take(recs.drop_last(), k - 1);
            assert(recs.drop_last().take(k - 1) =~= recs.drop_last());
        }
    }
}

/// Reads all records of the segment `id` with bytes `b`, with where each lies.
/// Also gives where the last whole record ends.
pub fn scan_segment(b: &[u8], id: u64, last: bool) -> (r: Result<(Vec<(Command, Location)>, usize)>)
    ensures
        r is Ok <==> parse_segment(b@, last) is Some,
        r matches Err(e) ==> (e matches KvsError::UnexpectedCommandType) || (e matches KvsError::Utf8(_)),
        r matches Ok((recs, end)) ==> {
            &&& parse_segment(b@, last) == Some(commands_of(recs@))
            &&& end <= b@.len()
            &&& (!last ==> end == b@.len())
            &&& recs_len(recs@) == end
            &&& parse_segment(b@.subrange(0, end as int), false) == Some(commands_of(recs@))
            &&& forall|j: int|
                0 <= j < recs@.len() ==> {
                    let (c, loc) = #[trigger] recs@[j];
                    &&& loc.segment == id
                    &&& loc.offset + loc.len <= end
                    &&& b@.subrange(loc.offset as int, loc.offset + loc.len) == spec_serialize(c@)
                    &&& fits(c@)
                }
        },
{
    let mut recs: Vec<(Command, Location)> = Vec::new();
    let mut pos: usize = 0;
    proof {
        assert(b@.subrange(0, 0) =~= Seq::<u8>::empty());
        assert(commands_of(recs@) =~= Seq::<CommandView>::empty());
        assert(b@.subrange(0, b@.len() as int) =~= b@);
        match parse_segment(b@, last) {
            Some(r0) => {
                assert(commands_of(recs@) + r0 =~= r0);
            },
            None => {},
        }
    }
    while pos < b.len()
        invariant
            pos <= b@.len(),
            recs_len(recs@) == pos,
            parse_segment(b@.subrange(0, pos as int), false) == Some(commands_of(recs@)),
            parse_segment(b@, last) == match parse_segment(b@.subrange(pos as int, b@.len() as int), last) {
                Some(rest) => Some(commands_of(recs@) + rest),
                None => None,
            },
            forall|j: int|
                0 <= j < recs@.len() ==> {
                    let (c, loc) = #[trigger] recs@[j];
                    &&& loc.segment == id
                    &&& loc.offset + loc.len <= pos
                    &&& b@.subrange(loc.offset as int, loc.offset + loc.len) == spec_serialize(c@)
                    &&& fits(c@)
                },
        decreases b@.len() - pos,
    {
        let rest = vstd::slice::slice_subrange(b, pos, b.len());
        match deserialize(rest) {
            Ok(Some((cmd, n))) => {
                if n == 0 || n > rest.len() {
                    return Err(KvsError::UnexpectedCommandType);
                }
                let ghost c = cmd@;
                let ghost old_recs = recs@;
                proof {
                    lemma_serialize_decoded(rest@);
                    assert(rest@.subrange(0, n as int) =~= b@.subrange(pos as int, pos + n));
                    assert(rest@.subrange(n as int, rest@.len() as int) =~= b@.subrange(
                        pos + n,
                        b@.len() as int,
                    ));
                }
                recs.push((cmd, Location { segment: id, offset: pos, len: n }));
                proof {
                    assert(b@.subrange(0, pos + n) =~= b@.subrange(0, pos as int) + spec_serialize(c));
                    lemma_parse_append(b@.subrange(0, pos as int), c);
                    assert(recs@.drop_last() =~= old_recs);
                    assert(commands_of(recs@) =~= commands_of(old_recs).push(c));
                    match parse_segment(b@.subrange(pos + n, b@.len() as int), last) {
                        Some(r2) => {
                            assert(commands_of(recs@) + r2 =~= commands_of(old_recs) + (seq![c]
                                + r2));
                        },
                        None => {},
                    }
                }
                pos = pos + n;
            },
            Ok(None) => {
                if last {
                    assert(commands_of(recs@) + Seq::<CommandView>::empty() =~= commands_of(recs@));
                    return Ok((recs, pos));
                }
                return Err(KvsError::UnexpectedCommandType);
            },
            Err(e) => return Err(e),
        }
    }
    assert(b@.subrange(pos as int, b@.len() as int) =~= Seq::<u8>::empty());
    assert(commands_of(recs@) + Seq::<CommandView>::empty() =~= commands_of(recs@));
    Ok((recs, pos))
}

} // verus!
