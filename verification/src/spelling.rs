//! What the names that an encoder has written spell when they are read
//! back: every written label, read from its offset, gives the labels from
//! it to the end of its name.

use vstd::prelude::*;
use crate::names::{
    best_match, decode_name, extends, label_hit, lemma_best_match, lemma_literal_len,
    lemma_suffix_run, literal_bytes, literal_len, match_offset, name_wire, pointer_bytes,
    pointer_target, registered, suffix_run,
};
use crate::structs::dns_packet_buffer::{label_values, LabelView};
use crate::structs::error::ParseError;

verus! {

/// Whether the octets of `w` from `pos` on spell `name`: label by label,
/// each behind its length, up to a zero octet, or up to a pointer to an
/// earlier offset from which the rest of the name is spelled. No more than
/// `hops` pointers are followed on the way.
pub open spec fn spells(w: Seq<u8>, pos: int, name: Seq<Seq<u8>>, hops: nat) -> bool
    decreases name.len(), pos,
{
    if pos < 0 || pos >= w.len() {
        false
    } else if name.len() == 0 {
        w[pos] == 0
    } else if w[pos] >= 0xC0 {
        &&& hops > 0
        &&& pos + 1 < w.len()
        &&& pointer_target(w, pos) < pos
        &&& spells(w, pointer_target(w, pos), name, (hops - 1) as nat)
    } else {
        let next = pos + 1 + w[pos] as int;
        &&& w[pos] != 0
        &&& next <= w.len()
        &&& w.subrange(pos + 1, next) == name[0]
        &&& spells(w, next, name.drop_first(), hops)
    }
}

/// Where the name that is written at `pos` ends: behind its zero octet,
/// or behind its first pointer.
pub open spec fn name_end(w: Seq<u8>, pos: int) -> int
    decreases w.len() - pos,
{
    if pos < 0 || pos >= w.len() {
        pos
    } else if w[pos] == 0 {
        pos + 1
    } else if w[pos] >= 0xC0 {
        pos + 2
    } else if pos + 1 + w[pos] as int > w.len() {
        pos
    } else {
        name_end(w, pos + 1 + w[pos] as int)
    }
}

/// Whether label `i` of the written name `entry` has an offset within
/// `w` from which `w` spells the labels of `entry` from `i` on, through no
/// more than `hops` pointers.
pub open spec fn label_spelled(w: Seq<u8>, entry: Seq<LabelView>, i: int, hops: nat) -> bool {
    &&& entry[i].offset is Some
    &&& entry[i].offset->0 < w.len()
    &&& spells(w, entry[i].offset->0 as int, label_values(entry.skip(i)), hops)
}

/// Whether every label of every written name in `domains` is spelled in
/// `w`, and a name through no more pointers than names were kept before it:
/// what an encoder keeps true of the octets it has written and the names it
/// has kept.
pub open spec fn registry_ok(w: Seq<u8>, domains: Seq<Seq<LabelView>>) -> bool {
    forall|d: int, i: int|
        0 <= d < domains.len() && 0 <= i < domains[d].len() ==> #[trigger] label_spelled(
            w,
            domains[d],
            i,
            d as nat,
        )
}

/// Whether every label of `name` has from 1 to 63 octets.
pub open spec fn name_ok(name: Seq<Seq<u8>>) -> bool {
    forall|k: int| 0 <= k < name.len() ==> 1 <= (#[trigger] name[k]).len() <= 63
}

/// A name that is read ends where `name_end` says.
pub proof fn lemma_decode_name_ends(w: Seq<u8>, pos: int, fuel: nat)
    ensures
        decode_name(w, pos, fuel) matches Ok((_, end)) ==> end == name_end(w, pos),
    decreases w.len() - pos,
{
    if pos < 0 || pos >= w.len() || w[pos] == 0 || w[pos] >= 0xC0 {
    } else {
        let next = pos + 1 + w[pos] as int;
        if next <= w.len() {
            lemma_decode_name_ends(w, next, fuel);
        }
    }
}

/// What is spelled is what is read, unless it is spelled through more
/// pointers than the reader may follow.
pub proof fn lemma_spells_decodes(
    w: Seq<u8>,
    pos: int,
    name: Seq<Seq<u8>>,
    hops: nat,
    fuel: nat,
)
    requires
        spells(w, pos, name, hops),
    ensures
        match decode_name(w, pos, fuel) {
            Ok((labels, end)) => labels == name && end == name_end(w, pos),
            Err(e) => e == ParseError::CompressionLoopExceeded && hops > fuel,
        },
    decreases name.len(), pos,
{
    lemma_decode_name_ends(w, pos, fuel);
    if name.len() == 0 {
    } else if w[pos] >= 0xC0 {
        if fuel > 0 {
            lemma_spells_decodes(
                w,
                pointer_target(w, pos),
                name,
                (hops - 1) as nat,
                (fuel - 1) as nat,
            );
        }
    } else {
        let next = pos + 1 + w[pos] as int;
        lemma_spells_decodes(w, next, name.drop_first(), hops, fuel);
        match decode_name(w, next, fuel) {
            Ok((labels, _)) => {
                assert(seq![w.subrange(pos + 1, next)] + labels =~= name);
            },
            Err(_) => {},
        }
    }
}

/// What a buffer spells, every buffer that begins with it spells too, and
/// what is spelled through some pointers is spelled through more.
pub proof fn lemma_spells_extends(
    w: Seq<u8>,
    f: Seq<u8>,
    pos: int,
    name: Seq<Seq<u8>>,
    hops: nat,
    more: nat,
)
    requires
        spells(w, pos, name, hops),
        extends(f, w),
        hops <= more,
    ensures
        spells(f, pos, name, more),
    decreases name.len(), pos,
{
    if name.len() == 0 {
    } else if w[pos] >= 0xC0 {
        lemma_spells_extends(
            w,
            f,
            pointer_target(w, pos),
            name,
            (hops - 1) as nat,
            (more - 1) as nat,
        );
    } else {
        let next = pos + 1 + w[pos] as int;
        assert(f.subrange(pos + 1, next) =~= w.subrange(pos + 1, next));
        lemma_spells_extends(w, f, next, name.drop_first(), hops, more);
    }
}

/// Written names stay spelled when more is written behind them.
pub proof fn lemma_registry_extends(w: Seq<u8>, f: Seq<u8>, domains: Seq<Seq<LabelView>>)
    requires
        registry_ok(w, domains),
        extends(f, w),
    ensures
        registry_ok(f, domains),
{
    assert forall|d: int, i: int|
        0 <= d < domains.len() && 0 <= i < domains[d].len() implies #[trigger] label_spelled(
        f,
        domains[d],
        i,
        d as nat,
    ) by {
        assert(label_spelled(w, domains[d], i, d as nat));
        lemma_spells_extends(
            w,
            f,
            domains[d][i].offset->0 as int,
            label_values(domains[d].skip(i)),
            d as nat,
            d as nat,
        );
    }
}

/// Where label `k` stands among the octets of `labels`: behind the labels
/// before it come its length and then its octets.
pub proof fn lemma_literal_at(labels: Seq<Seq<u8>>, k: int)
    requires
        0 <= k < labels.len(),
    ensures
        literal_len(labels.take(k)) + 1 + labels[k].len() == literal_len(labels.take(k + 1)),
        literal_len(labels.take(k + 1)) <= literal_len(labels),
        literal_bytes(labels).len() == literal_len(labels),
        literal_bytes(labels)[literal_len(labels.take(k)) as int] == labels[k].len() as u8,
        literal_bytes(labels).subrange(
            literal_len(labels.take(k)) as int + 1,
            literal_len(labels.take(k + 1)) as int,
        ) == labels[k],
    decreases labels.len(),
{
    lemma_literal_len(labels);
    lemma_literal_len(labels.drop_last());
    assert(labels.take(k + 1).drop_last() =~= labels.take(k));
    assert(labels.take(k + 1).last() == labels[k]);
    if k == labels.len() - 1 {
        assert(labels.take(k) =~= labels.drop_last());
        assert(labels.take(k + 1) =~= labels);
        let before = literal_bytes(labels.drop_last());
        let all = before + seq![labels.last().len() as u8] + labels.last();
        assert(literal_bytes(labels) == all);
        assert(all.subrange(before.len() as int + 1, all.len() as int) =~= labels.last());
    } else {
        let front = labels.drop_last();
        lemma_literal_at(front, k);
        assert(front.take(k) =~= labels.take(k));
        assert(front.take(k + 1) =~= labels.take(k + 1));
        let before = literal_bytes(front);
        let all = before + seq![labels.last().len() as u8] + labels.last();
        assert(literal_bytes(labels) == all);
        let a = literal_len(labels.take(k)) as int;
        let b = literal_len(labels.take(k + 1)) as int;
        assert(all[a] == before[a]);
        assert(all.subrange(a + 1, b) =~= before.subrange(a + 1, b));
    }
}

/// Labels that stand written in `f` from `p` on, and behind them
/// something that spells the rest of `name`, spell `name` from each of
/// them on.
pub proof fn lemma_written_spells(
    f: Seq<u8>,
    p: int,
    lead: Seq<Seq<u8>>,
    name: Seq<Seq<u8>>,
    k: int,
    end: int,
    hops: nat,
)
    requires
        0 <= p,
        0 <= k <= lead.len() <= name.len(),
        lead == name.take(lead.len() as int),
        forall|j: int| 0 <= j < lead.len() ==> 1 <= (#[trigger] lead[j]).len() <= 63,
        p + literal_len(lead) < f.len(),
        forall|i: int|
            0 <= i < literal_len(lead) ==> #[trigger] f[p + i] == literal_bytes(lead)[i],
        spells(f, p + literal_len(lead), name.skip(lead.len() as int), hops),
        name_end(f, p + literal_len(lead)) == end,
    ensures
        literal_len(lead.take(k)) <= literal_len(lead),
        spells(f, p + literal_len(lead.take(k)), name.skip(k), hops),
        name_end(f, p + literal_len(lead.take(k))) == end,
    decreases lead.len() - k,
{
    if k == lead.len() {
        assert(lead.take(k) =~= lead);
    } else {
        lemma_written_spells(f, p, lead, name, k + 1, end, hops);
        lemma_literal_at(lead, k);
        let a = p + literal_len(lead.take(k));
        let next = p + literal_len(lead.take(k + 1));
        assert(lead[k].len() as u8 == lead[k].len());
        assert(f[p + literal_len(lead.take(k))] == literal_bytes(lead)[literal_len(
            lead.take(k),
        ) as int]);
        assert(f.subrange(a + 1, next) =~= lead[k]) by {
            assert forall|i: int| 0 <= i < lead[k].len() implies f.subrange(a + 1, next)[i]
                == lead[k][i] by {
                let q = literal_len(lead.take(k)) + 1 + i;
                assert(f[p + q] == literal_bytes(lead)[q]);
                assert(literal_bytes(lead).subrange(
                    literal_len(lead.take(k)) as int + 1,
                    literal_len(lead.take(k + 1)) as int,
                )[i] == literal_bytes(lead)[q]);
            }
        }
        assert(name.skip(k)[0] == lead[k]);
        assert(name.skip(k).drop_first() =~= name.skip(k + 1));
    }
}

/// The name that an encoder writes behind `w` is spelled, from each of
/// the labels it writes out, in every buffer `f` that begins with `w` and
/// the octets written, through no more pointers than names were kept.
pub proof fn lemma_name_spelled(
    w: Seq<u8>,
    domains: Seq<Seq<LabelView>>,
    name: Seq<Seq<u8>>,
    f: Seq<u8>,
    k: int,
)
    requires
        registry_ok(w, domains),
        name_ok(name),
        name_wire(domains, w.len() as int, name) is Ok,
        extends(f, w + name_wire(domains, w.len() as int, name)->Ok_0.bytes),
        0 <= k <= name.len() - best_match(domains, name).1,
    ensures
        literal_len(name.take(name.len() - best_match(domains, name).1).take(k)) < name_wire(
            domains,
            w.len() as int,
            name,
        )->Ok_0.bytes.len(),
        spells(
            f,
            w.len() as int + literal_len(
                name.take(name.len() - best_match(domains, name).1).take(k),
            ),
            name.skip(k),
            domains.len(),
        ),
        name_end(
            f,
            w.len() as int + literal_len(
                name.take(name.len() - best_match(domains, name).1).take(k),
            ),
        ) == w.len() + name_wire(domains, w.len() as int, name)->Ok_0.bytes.len(),
{
    reveal(name_wire);
    let (idx, run) = best_match(domains, name);
    let n = name.len() as int;
    let lead = name.take(n - run);
    let p = w.len() as int;
    let out = name_wire(domains, p, name)->Ok_0.bytes;
    let body = literal_bytes(lead);
    lemma_best_match(domains, name);
    lemma_literal_len(lead);
    let at = p + body.len();
    assert forall|i: int| 0 <= i < out.len() implies f[p + i] == out[i] by {
        assert(f[p + i] == (w + out)[p + i]);
    }
    assert forall|i: int| 0 <= i < literal_len(lead) implies #[trigger] f[p + i] == literal_bytes(
        lead,
    )[i] by {
        assert(f[p + i] == out[i]);
    }
    assert forall|j: int| 0 <= j < lead.len() implies 1 <= (#[trigger] lead[j]).len() <= 63 by {
        assert(lead[j] == name[j]);
    }
    assert(lead.take(lead.len() as int) =~= lead);
    if run > 0 {
        let e = domains[idx];
        let first = e.len() - run;
        lemma_suffix_run(e, name);
        assert(label_hit(e[e.len() - 1 - (run - 1)], name[n - 1 - (run - 1)]));
        let target = match_offset(e, run);
        assert(label_spelled(w, e, first, idx as nat));
        assert(label_values(e.skip(first)) =~= name.skip(n - run)) by {
            assert forall|j: int| 0 <= j < run implies label_values(e.skip(first))[j] == name.skip(
                n - run,
            )[j] by {
                assert(label_hit(e[e.len() - 1 - (run - 1 - j)], name[n - 1 - (run - 1 - j)]));
            }
        }
        lemma_spells_extends(
            w,
            f,
            target as int,
            name.skip(n - run),
            idx as nat,
            (domains.len() - 1) as nat,
        );
        assert(out == body + pointer_bytes(target));
        assert(f[p + body.len()] == out[body.len() as int]);
        assert(f[p + (body.len() + 1)] == out[body.len() as int + 1]);
        assert(f[at] == (0xC0 + target / 256) as u8);
        assert(f[at + 1] == (target % 256) as u8);
        assert(pointer_target(f, at) == target);
        assert(spells(f, at, name.skip(n - run), domains.len()));
        assert(name_end(f, at) == at + 2);
        lemma_written_spells(f, p, lead, name, k, at + 2, domains.len());
    } else {
        assert(out == body + seq![0u8]);
        assert(f[p + body.len()] == out[body.len() as int]);
        assert(name.skip(n).len() == 0);
        assert(spells(f, at, name.skip(n), domains.len()));
        assert(name_end(f, at) == at + 1);
        lemma_written_spells(f, p, lead, name, k, at + 1, domains.len());
    }
}

/// The entry that is kept of `name` when it is written at `at` and at
/// least one of its labels is written out.
pub open spec fn kept_entry(domains: Seq<Seq<LabelView>>, at: int, name: Seq<Seq<u8>>) -> Seq<
    LabelView,
> {
    let (idx, run) = best_match(domains, name);
    registered(
        name.take(name.len() - run),
        at,
        if run > 0 {
            domains[idx].skip(domains[idx].len() - run)
        } else {
            Seq::empty()
        },
    )
}

/// The entry that is kept of a name holds the labels of that name.
pub proof fn lemma_kept_entry_values(domains: Seq<Seq<LabelView>>, at: int, name: Seq<Seq<u8>>)
    ensures
        best_match(domains, name).1 <= name.len(),
        label_values(kept_entry(domains, at, name)) == name,
{
    let (idx, run) = best_match(domains, name);
    let n = name.len() as int;
    let entry = kept_entry(domains, at, name);
    lemma_best_match(domains, name);
    if run > 0 {
        lemma_suffix_run(domains[idx], name);
    }
    assert forall|j: int| 0 <= j < n implies label_values(entry)[j] == name[j] by {
        if j >= n - run {
            let i = n - 1 - j;
            assert(label_hit(domains[idx][domains[idx].len() - 1 - i], name[n - 1 - i]));
        }
    }
    assert(label_values(entry) =~= name);
}

/// Every label of the entry that is kept of a name is spelled by what is
/// written once the name is.
pub proof fn lemma_kept_entry_spelled(
    w: Seq<u8>,
    domains: Seq<Seq<LabelView>>,
    name: Seq<Seq<u8>>,
    i: int,
)
    requires
        registry_ok(w, domains),
        name_ok(name),
        name_wire(domains, w.len() as int, name) is Ok,
        w.len() + name_wire(domains, w.len() as int, name)->Ok_0.bytes.len() <= usize::MAX,
        0 <= i < name.len(),
    ensures
        label_spelled(
            w + name_wire(domains, w.len() as int, name)->Ok_0.bytes,
            kept_entry(domains, w.len() as int, name),
            i,
            domains.len(),
        ),
{
    let (idx, run) = best_match(domains, name);
    let n = name.len() as int;
    let p = w.len() as int;
    let lead = name.take(n - run);
    let out = name_wire(domains, p, name)->Ok_0.bytes;
    let w2 = w + out;
    let entry = kept_entry(domains, p, name);
    lemma_kept_entry_values(domains, p, name);
    lemma_best_match(domains, name);
    assert(label_values(entry.skip(i)) =~= name.skip(i));
    if i < lead.len() {
        lemma_name_spelled(w, domains, name, w2, i);
    } else {
        let e = domains[idx];
        let src = e.len() - run + (i - lead.len());
        lemma_suffix_run(e, name);
        assert(entry[i] == e[src]);
        assert(label_spelled(w, e, src, idx as nat));
        lemma_spells_extends(
            w,
            w2,
            e[src].offset->0 as int,
            label_values(e.skip(src)),
            idx as nat,
            domains.len(),
        );
        assert(label_values(e.skip(src)) =~= label_values(entry.skip(i)));
    }
}

/// What an encoder keeps true is kept, and what it writes is read back:
/// after `name` is written behind `w`, every written name is spelled in what
/// is written now, and every buffer `f` that begins with it spells `name`
/// where it was written, up to the end of what was written for it.
pub proof fn lemma_name_wire_spells(
    w: Seq<u8>,
    domains: Seq<Seq<LabelView>>,
    name: Seq<Seq<u8>>,
    f: Seq<u8>,
)
    requires
        registry_ok(w, domains),
        name_ok(name),
        name_wire(domains, w.len() as int, name) is Ok,
        extends(f, w + name_wire(domains, w.len() as int, name)->Ok_0.bytes),
        f.len() <= usize::MAX,
    ensures
        registry_ok(
            w + name_wire(domains, w.len() as int, name)->Ok_0.bytes,
            name_wire(domains, w.len() as int, name)->Ok_0.domains,
        ),
        spells(f, w.len() as int, name, domains.len()),
        name_end(f, w.len() as int) == w.len() + name_wire(
            domains,
            w.len() as int,
            name,
        )->Ok_0.bytes.len(),
{
    let run = best_match(domains, name).1;
    let p = w.len() as int;
    let nw = name_wire(domains, p, name)->Ok_0;
    let w2 = w + nw.bytes;
    let lead = name.take(name.len() - run);
    lemma_kept_entry_values(domains, p, name);
    lemma_name_spelled(w, domains, name, f, 0);
    assert(lead.take(0) =~= Seq::<Seq<u8>>::empty());
    assert(name.skip(0) =~= name);
    lemma_registry_extends(w, w2, domains);
    let entry = kept_entry(domains, p, name);
    assert(nw.domains == if lead.len() > 0 {
        domains.push(entry)
    } else {
        domains
    }) by {
        reveal(name_wire);
    }
    assert forall|d: int, i: int|
        0 <= d < nw.domains.len() && 0 <= i < nw.domains[d].len() implies #[trigger] label_spelled(
        w2,
        nw.domains[d],
        i,
        d as nat,
    ) by {
        if d < domains.len() {
            assert(nw.domains[d] == domains[d]);
            assert(label_spelled(w2, domains[d], i, d as nat));
        } else {
            assert(nw.domains[d] == entry);
            assert(entry.len() == label_values(entry).len());
            lemma_kept_entry_spelled(w, domains, name, i);
        }
    }
}

/// A written name whose labels all have offsets shares all of its labels
/// with the name that has the same labels.
pub proof fn lemma_whole_run(entry: Seq<LabelView>, name: Seq<Seq<u8>>)
    requires
        label_values(entry) == name,
        forall|i: int| 0 <= i < entry.len() ==> (#[trigger] entry[i]).offset is Some,
    ensures
        suffix_run(entry, name) == name.len(),
    decreases entry.len(),
{
    assert(entry.len() == label_values(entry).len());
    if entry.len() > 0 {
        assert(label_values(entry)[entry.len() - 1] == entry.last().value);
        assert(label_values(entry.drop_last()) =~= name.drop_last());
        lemma_whole_run(entry.drop_last(), name.drop_last());
    }
}

/// Once a name is written, it is found whole among the written names.
pub proof fn lemma_written_name_found(
    domains: Seq<Seq<LabelView>>,
    at: int,
    name: Seq<Seq<u8>>,
)
    requires
        name.len() > 0,
        name_wire(domains, at, name) is Ok,
    ensures
        best_match(name_wire(domains, at, name)->Ok_0.domains, name).1 == name.len(),
{
    reveal(name_wire);
    let (idx, run) = best_match(domains, name);
    let n = name.len() as int;
    let lead = name.take(n - run);
    let after = name_wire(domains, at, name)->Ok_0.domains;
    lemma_best_match(domains, name);
    lemma_kept_entry_values(domains, at, name);
    if lead.len() > 0 {
        let entry = kept_entry(domains, at, name);
        assert(after == domains.push(entry));
        if run > 0 {
            lemma_suffix_run(domains[idx], name);
        }
        assert forall|i: int| 0 <= i < entry.len() implies (#[trigger] entry[i]).offset is Some by {
            if i >= lead.len() {
                let k = n - 1 - i;
                assert(entry.len() == label_values(entry).len());
                assert(label_hit(domains[idx][domains[idx].len() - 1 - k], name[n - 1 - k]));
            }
        }
        lemma_whole_run(entry, name);
        lemma_best_match(after, name);
        assert(after[after.len() - 1] == entry);
        let found = best_match(after, name);
        lemma_suffix_run(after[found.0], name);
    }
}

/// A name that is found whole among the written names is written as a
/// pointer, two octets and nothing else, and no name is kept for it.
pub proof fn lemma_found_name_is_pointer(
    domains: Seq<Seq<LabelView>>,
    at: int,
    name: Seq<Seq<u8>>,
)
    requires
        name.len() > 0,
        best_match(domains, name).1 == name.len(),
        name_wire(domains, at, name) is Ok,
    ensures
        name_wire(domains, at, name)->Ok_0.domains == domains,
        name_wire(domains, at, name)->Ok_0.bytes == pointer_bytes(
            match_offset(domains[best_match(domains, name).0], name.len()),
        ),
        match_offset(domains[best_match(domains, name).0], name.len()) <= 0x3FFF,
{
    reveal(name_wire);
    let lead = name.take(0);
    assert(lead =~= Seq::<Seq<u8>>::empty());
    assert(literal_bytes(lead) =~= Seq::<u8>::empty());
    let target = match_offset(domains[best_match(domains, name).0], name.len());
    assert(literal_bytes(lead) + pointer_bytes(target) =~= pointer_bytes(target));
}

} // verus!
