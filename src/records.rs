//! Reading delimited text records into the values the graph builder takes:
//! comma-separated fields, sequence numbers, and fixed-point coordinates.
use vstd::prelude::*;

verus! {

/// The comma-separated fields of `s`: one more field than there are commas.
pub open spec fn fields(s: Seq<char>) -> Seq<Seq<char>>
    decreases s.len(),
{
    if s.len() == 0 {
        seq![Seq::empty()]
    } else if s.last() == ',' {
        fields(s.drop_last()).push(Seq::empty())
    } else {
        let f = fields(s.drop_last());
        f.update(f.len() - 1, f.last().push(s.last()))
    }
}

proof fn lemma_fields_nonempty(s: Seq<char>)
    ensures
        fields(s).len() >= 1,
    decreases s.len(),
{
    if s.len() > 0 {
        lemma_fields_nonempty(s.drop_last());
    }
}

/// The fields viewed as character sequences.
pub open spec fn strings_view(v: Seq<String>) -> Seq<Seq<char>> {
    v.map_values(|f: String| f@)
}

/// Splits a line at every comma.
pub fn split_fields(line: &str) -> (r: Vec<String>)
    ensures
        strings_view(r@) == fields(line@),
{
    let n = line.unicode_len();
    let mut out: Vec<String> = Vec::new();
    let mut start: usize = 0;
    let mut i: usize = 0;
    assert(line@.take(0) =~= Seq::<char>::empty());
    assert(strings_view(out@).push(line@.subrange(0, 0)) =~~= seq![Seq::<char>::empty()]);
    while i < n
        invariant
            n == line@.len(),
            start <= i <= n,
            fields(line@.take(i as int)) == strings_view(out@).push(line@.subrange(start as int, i as int)),
        decreases n - i,
    {
        let c = line.get_char(i);
        proof {
            assert(line@.take(i + 1).drop_last() =~= line@.take(i as int));
            assert(line@.take(i + 1).last() == c);
        }
        if c == ',' {
            let f = line.substring_char(start, i).to_owned();
            let ghost prev = out@;
            out.push(f);
            assert(strings_view(out@) =~= strings_view(prev).push(f@));
            start = i + 1;
            assert(line@.subrange(start as int, i + 1) =~= Seq::<char>::empty());
        } else {
            assert(line@.subrange(start as int, i + 1) =~= line@.subrange(start as int, i as int).push(c));
        }
        i = i + 1;
    }
    let f = line.substring_char(start, n).to_owned();
    let ghost prev = out@;
    out.push(f);
    assert(strings_view(out@) =~= strings_view(prev).push(f@));
    assert(line@.take(n as int) =~= line@);
    out
}

/// Every character is a decimal digit.
pub open spec fn all_digits(s: Seq<char>) -> bool {
    forall|i: int| 0 <= i < s.len() ==> '0' <= #[trigger] s[i] <= '9'
}

/// The number that a string of decimal digits denotes.
pub open spec fn digits_value(s: Seq<char>) -> int
    decreases s.len(),
{
    if s.len() == 0 {
        0
    } else {
        digits_value(s.drop_last()) * 10 + (s.last() as int - '0' as int)
    }
}

proof fn lemma_digits_value_nonneg(s: Seq<char>)
    requires
        all_digits(s),
    ensures
        digits_value(s) >= 0,
    decreases s.len(),
{
    if s.len() > 0 {
        lemma_digits_value_nonneg(s.drop_last());
    }
}

/// Reads an unsigned decimal number: one or more digits, nothing else, with
/// a value that fits in 32 bits.
pub fn parse_u32(s: &str) -> (r: Option<u32>)
    ensures
        r is Some <==> (s@.len() > 0 && all_digits(s@) && digits_value(s@) <= u32::MAX),
        match r {
            Some(v) => v == digits_value(s@),
            None => true,
        },
{
    let n = s.unicode_len();
    if n == 0 {
        return None;
    }
    let mut acc: u64 = 0;
    let mut too_big = false;
    let mut i: usize = 0;
    while i < n
        invariant
            n == s@.len(),
            i <= n,
            all_digits(s@.take(i as int)),
            too_big ==> digits_value(s@.take(i as int)) > u32::MAX,
            !too_big ==> acc == digits_value(s@.take(i as int)) && acc <= u32::MAX,
        decreases n - i,
    {
        let c = s.get_char(i);
        if c < '0' || c > '9' {
            assert(!all_digits(s@)) by {
                assert(s@[i as int] == c);
            }
            return None;
        }
        let ghost t = s@.take(i + 1);
        proof {
            assert(t.drop_last() =~= s@.take(i as int));
            assert(t.last() == c);
            lemma_digits_value_nonneg(s@.take(i as int));
        }
        let d = (c as u32 - '0' as u32) as u64;
        if !too_big {
            acc = acc * 10 + d;
            if acc > 0xffff_ffff {
                too_big = true;
            }
        }
        i = i + 1;
    }
    assert(s@.take(n as int) =~= s@);
    if too_big {
        None
    } else {
        Some(acc as u32)
    }
}

/// A stop-time record: trip identifier, sequence number and stop identifier,
/// read from fields 0, 4 and 3. A record with fewer than five fields or a
/// malformed sequence number is rejected.
pub fn parse_stop_time(fields: &Vec<String>) -> (r: Option<(String, u32, String)>)
    ensures
        r is Some <==> (fields.len() >= 5 && fields@[4]@.len() > 0 && all_digits(fields@[4]@) && digits_value(
            fields@[4]@,
        ) <= u32::MAX),
        match r {
            Some((trip, seq, stop)) => trip@ == fields@[0]@ && stop@ == fields@[3]@ && seq == digits_value(
                fields@[4]@,
            ),
            None => true,
        },
{
    if fields.len() < 5 {
        return None;
    }
    match parse_u32(fields[4].as_str()) {
        Some(seq) => Some((fields[0].clone(), seq, fields[3].clone())),
        None => None,
    }
}

/// The (sequence number, stop identifier) entries of the records of trip
/// `id`, in input order.
pub open spec fn trip_entries(recs: Seq<(String, u32, String)>, id: Seq<char>) -> Seq<(u32, Seq<char>)>
    decreases recs.len(),
{
    if recs.len() == 0 {
        Seq::empty()
    } else {
        let prev = trip_entries(recs.drop_last(), id);
        if recs.last().0@ == id {
            prev.push((recs.last().1, recs.last().2@))
        } else {
            prev
        }
    }
}

/// Entries viewed with their stop identifiers as character sequences.
pub open spec fn entries_of(v: Seq<(u32, String)>) -> Seq<(u32, Seq<char>)> {
    v.map_values(|e: (u32, String)| (e.0, e.1@))
}

/// Some group is keyed by `id`.
pub open spec fn has_group(groups: Seq<(String, Vec<(u32, String)>)>, id: Seq<char>) -> bool {
    exists|g: int| 0 <= g < groups.len() && #[trigger] groups[g].0@ == id
}

/// Groups are keyed by distinct trip identifiers, each holds exactly the
/// entries of the records of its trip, in input order, and none is empty.
pub open spec fn grouped(groups: Seq<(String, Vec<(u32, String)>)>, recs: Seq<(String, u32, String)>) -> bool {
    &&& forall|g1: int, g2: int|
        0 <= g1 < groups.len() && 0 <= g2 < groups.len() && g1 != g2 ==> #[trigger] groups[g1].0@
            != #[trigger] groups[g2].0@
    &&& forall|g: int| 0 <= g < groups.len() ==> entries_of(#[trigger] groups[g].1@) == trip_entries(recs, groups[g].0@)
    &&& forall|g: int| 0 <= g < groups.len() ==> (#[trigger] groups[g]).1@.len() > 0
    &&& forall|i: int| 0 <= i < recs.len() ==> has_group(groups, #[trigger] recs[i].0@)
}

/// The index of the group keyed by `id`, searching from the most recent.
fn find_group(groups: &Vec<(String, Vec<(u32, String)>)>, id: &String) -> (r: Option<usize>)
    ensures
        match r {
            Some(g) => g < groups.len() && groups@[g as int].0@ == id@,
            None => !has_group(groups@, id@),
        },
{
    let mut k: usize = groups.len();
    while k > 0
        invariant
            k <= groups.len(),
            forall|m: int| k <= m < groups.len() ==> #[trigger] groups@[m].0@ != id@,
        decreases k,
    {
        if groups[k - 1].0 == *id {
            return Some(k - 1);
        }
        k = k - 1;
    }
    None
}

/// Gathers stop-time records (trip identifier, sequence number, stop
/// identifier) into one group of (sequence number, stop identifier) entries
/// per trip.
pub fn group_by_trip(recs: &Vec<(String, u32, String)>) -> (r: Vec<(String, Vec<(u32, String)>)>)
    ensures
        grouped(r@, recs@),
{
    let mut out: Vec<(String, Vec<(u32, String)>)> = Vec::new();
    let mut i: usize = 0;
    while i < recs.len()
        invariant
            i <= recs.len(),
            grouped(out@, recs@.take(i as int)),
        decreases recs.len() - i,
    {
        let ghost pre = recs@.take(i as int);
        let ghost cur = recs@.take(i + 1);
        let ghost prev = out@;
        assert(cur.drop_last() =~= pre);
        let rec = &recs[i];
        let e = (rec.1, rec.2.clone());
        match find_group(&out, &rec.0) {
            Some(g) => {
                let ghost old_entries = out@[g as int].1@;
                out[g].1.push(e);
                assert(entries_of(out@[g as int].1@) =~= entries_of(old_entries).push((e.0, e.1@)));
                assert forall|h: int| 0 <= h < out.len() implies entries_of(#[trigger] out@[h].1@) == trip_entries(
                    cur,
                    out@[h].0@,
                ) by {
                    if h != g {
                        assert(out@[h] == prev[h]);
                        assert(prev[h].0@ != prev[g as int].0@);
                    }
                }
                assert forall|j: int| 0 <= j < cur.len() implies has_group(out@, #[trigger] cur[j].0@) by {
                    if j < i {
                        assert(pre[j] == cur[j]);
                        let h = choose|h: int| 0 <= h < prev.len() && #[trigger] prev[h].0@ == pre[j].0@;
                        assert(out@[h].0@ == prev[h].0@);
                    } else {
                        assert(out@[g as int].0@ == cur[j].0@);
                    }
                }
            },
            None => {
                let mut v: Vec<(u32, String)> = Vec::new();
                v.push(e);
                out.push((rec.0.clone(), v));
                let ghost n = prev.len() as int;
                assert(trip_entries(pre, rec.0@) =~= Seq::empty()) by {
                    lemma_trip_entries_absent(pre, rec.0@);
                }
                assert(entries_of(out@[n].1@) =~= seq![(e.0, e.1@)]);
                assert forall|h: int| 0 <= h < out.len() implies entries_of(#[trigger] out@[h].1@) == trip_entries(
                    cur,
                    out@[h].0@,
                ) by {
                    if h != n {
                        assert(out@[h] == prev[h]);
                    }
                }
                assert forall|j: int| 0 <= j < cur.len() implies has_group(out@, #[trigger] cur[j].0@) by {
                    if j < i {
                        assert(pre[j] == cur[j]);
                        let h = choose|h: int| 0 <= h < prev.len() && #[trigger] prev[h].0@ == pre[j].0@;
                        assert(out@[h] == prev[h]);
                    } else {
                        assert(out@[n].0@ == cur[j].0@);
                    }
                }
            },
        }
        i = i + 1;
    }
    assert(recs@.take(recs.len() as int) =~= recs@);
    out
}

proof fn lemma_trip_entries_absent(recs: Seq<(String, u32, String)>, id: Seq<char>)
    requires
        forall|i: int| 0 <= i < recs.len() ==> #[trigger] recs[i].0@ != id,
    ensures
        trip_entries(recs, id) == Seq::<(u32, Seq<char>)>::empty(),
    decreases recs.len(),
{
    if recs.len() > 0 {
        lemma_trip_entries_absent(recs.drop_last(), id);
    }
}

} // verus!
