//! Laws of the resolution engine, each proved once and for all inputs: field
//! containment, register and section layout, idempotence of the merge, and
//! the pack/unpack round trip of the flat view.

use vstd::prelude::*;

use crate::flat::{
    cover_mask, field_index, field_value, fields_fit_word, pack_fields, pack_piece,
    unpack_fields, FlatFieldV,
};
use crate::model::{
    frags_word_sizes_agree, insert_field_by_offset, insert_frag_sorted, leq_frag, regmaps_in_bounds,
    resolve_fields, resolve_fields_rec, resolve_regmaps, resolve_regs, sort_fields_by_offset,
    sort_frags, word_bytes_of, FieldOptV, FieldV, RegisterOptV, RegmapOptV,
};
use crate::model;
use crate::proofs::{
    lemma_frags_rec_props, lemma_regs_rec_props, lemma_sort_frags_len, secs_aligned,
    secs_contain_registers, secs_disjoint_sorted,
};

verus! {

// ---------------------------------------------------------------------------
// Field containment
// ---------------------------------------------------------------------------

proof fn lemma_insert_field_keeps_bound(s: Seq<FieldV>, f: FieldV, word_size: int)
    requires
        forall|k: int|
            0 <= k < s.len() ==> #[trigger] s[k].offset_b + s[k].size_b <= word_size * 8,
        f.offset_b + f.size_b <= word_size * 8,
    ensures
        forall|k: int|
            0 <= k < insert_field_by_offset(s, f).len() ==> #[trigger] insert_field_by_offset(
                s,
                f,
            )[k].offset_b + insert_field_by_offset(s, f)[k].size_b <= word_size * 8,
    decreases s.len(),
{
    if s.len() == 0 {
    } else if s.last().offset_b <= f.offset_b {
    } else {
        lemma_insert_field_keeps_bound(s.drop_last(), f, word_size);
    }
}

proof fn lemma_sort_fields_keeps_bound(s: Seq<FieldV>, word_size: int)
    requires
        forall|k: int|
            0 <= k < s.len() ==> #[trigger] s[k].offset_b + s[k].size_b <= word_size * 8,
    ensures
        forall|k: int|
            0 <= k < sort_fields_by_offset(s).len() ==> #[trigger] sort_fields_by_offset(
                s,
            )[k].offset_b + sort_fields_by_offset(s)[k].size_b <= word_size * 8,
    decreases s.len(),
{
    if s.len() == 0 {
    } else {
        lemma_sort_fields_keeps_bound(s.drop_last(), word_size);
        lemma_insert_field_keeps_bound(
            sort_fields_by_offset(s.drop_last()),
            s.last(),
            word_size,
        );
    }
}

proof fn lemma_fields_rec_within_word(
    fields: Seq<(Seq<char>, FieldOptV)>,
    i: int,
    nxt: int,
    acc: Seq<FieldV>,
    word_size: int,
)
    requires
        resolve_fields_rec(fields, i, nxt, acc, word_size) is Ok,
        forall|k: int|
            0 <= k < acc.len() ==> #[trigger] acc[k].offset_b + acc[k].size_b <= word_size * 8,
    ensures
        ({
            let out = resolve_fields_rec(fields, i, nxt, acc, word_size)->Ok_0;
            forall|k: int|
                0 <= k < out.len() ==> #[trigger] out[k].offset_b + out[k].size_b <= word_size
                    * 8
        }),
    decreases fields.len() - i,
{
    if i < 0 || i >= fields.len() {
        lemma_sort_fields_keeps_bound(acc, word_size);
    } else {
        let f = fields[i].1;
        let offset_b = if f.offset_b is Some { f.offset_b->0 } else { nxt };
        if offset_b + f.size_b > word_size * 8 {
        } else {
            let nf = FieldV {
                name: fields[i].0,
                description: f.description,
                size_b: f.size_b,
                offset_b,
                default: f.default,
            };
            lemma_fields_rec_within_word(
                fields,
                i + 1,
                offset_b + f.size_b,
                acc.push(nf),
                word_size,
            );
        }
    }
}

/// Law: every resolved field lies within the register word — its bit offset
/// plus its bit width never passes the word's bit width.
pub proof fn law_fields_within_word(fields: Seq<(Seq<char>, FieldOptV)>, word_size: int)
    requires
        resolve_fields(fields, word_size) is Ok,
    ensures
        ({
            let out = resolve_fields(fields, word_size)->Ok_0;
            forall|k: int|
                0 <= k < out.len() ==> #[trigger] out[k].offset_b + out[k].size_b <= word_size
                    * 8
        }),
{
    lemma_fields_rec_within_word(fields, 0, 0, Seq::empty(), word_size);
}

// ---------------------------------------------------------------------------
// Register layout
// ---------------------------------------------------------------------------

/// Law: the registers of a resolved section occupy disjoint one-word ranges
/// in strictly ascending address order — each register's address plus one
/// word is at most the next register's address.
pub proof fn law_registers_disjoint(
    regs: Seq<(Seq<char>, RegisterOptV)>,
    section_offset: int,
    word_bytes: int,
)
    requires
        word_bytes >= 1,
        0 <= section_offset <= usize::MAX,
        model::regs_in_bounds(regs, 0, section_offset, section_offset, word_bytes),
        resolve_regs(regs, section_offset, word_bytes) is Ok,
    ensures
        ({
            let out = resolve_regs(regs, section_offset, word_bytes)->Ok_0.0;
            forall|k1: int, k2: int|
                0 <= k1 < k2 < out.len() ==> #[trigger] out[k1].offset + word_bytes
                    <= #[trigger] out[k2].offset
        }),
{
    lemma_regs_rec_props(regs, 0, section_offset, Seq::empty(), section_offset, word_bytes);
}

// ---------------------------------------------------------------------------
// Section layout
// ---------------------------------------------------------------------------

/// Law: the sections of a resolved map occupy disjoint byte ranges in
/// ascending address order, and every section address is a multiple of its
/// resolved alignment.  Sections with a positive range are strictly ordered.
pub proof fn law_sections_disjoint_aligned(frags: Seq<RegmapOptV>)
    requires
        regmaps_in_bounds(frags),
        resolve_regmaps(frags) is Ok,
    ensures
        ({
            let m = resolve_regmaps(frags)->Ok_0;
            &&& forall|k1: int, k2: int|
                0 <= k1 < k2 < m.section.len() ==> #[trigger] m.section[k1].offset
                    + m.section[k1].range <= #[trigger] m.section[k2].offset
            &&& forall|k: int|
                0 <= k < m.section.len() ==> #[trigger] m.section[k].bytes_align >= 1
                    && m.section[k].offset % (m.section[k].bytes_align) == 0
                    && m.section[k].range >= 0
        }),
{
    let sorted = sort_frags(frags);
    let word_bytes = word_bytes_of(frags[0].word_size_b);
    lemma_frags_rec_props(sorted, 0, 0, Seq::empty(), word_bytes);
    let p = model::resolve_frags_rec(sorted, 0, 0, Seq::empty(), word_bytes)->Ok_0;
    assert(secs_disjoint_sorted(p.0));
    assert(secs_aligned(p.0));
}

/// Law: every register of a resolved map lies inside its own section — at or
/// above the section's address, with its word ending inside the section's
/// reserved range.  With the section ordering this means registers of
/// different sections can never collide.
pub proof fn law_registers_within_sections(frags: Seq<RegmapOptV>)
    requires
        regmaps_in_bounds(frags),
        resolve_regmaps(frags) is Ok,
    ensures
        ({
            let m = resolve_regmaps(frags)->Ok_0;
            forall|k: int, r: int|
                0 <= k < m.section.len() && 0 <= r < m.section[k].register.len()
                    ==> m.section[k].offset <= (#[trigger] m.section[k].register[r]).offset
                    && m.section[k].register[r].offset + word_bytes_of(m.word_size_b)
                    <= m.section[k].offset + m.section[k].range
        }),
{
    let sorted = sort_frags(frags);
    let word_bytes = word_bytes_of(frags[0].word_size_b);
    lemma_frags_rec_props(sorted, 0, 0, Seq::empty(), word_bytes);
    let p = model::resolve_frags_rec(sorted, 0, 0, Seq::empty(), word_bytes)->Ok_0;
    assert(secs_contain_registers(p.0, word_bytes));
}

// ---------------------------------------------------------------------------
// Idempotence of the merge
// ---------------------------------------------------------------------------

pub open spec fn frags_sorted(s: Seq<RegmapOptV>) -> bool {
    forall|k1: int, k2: int| 0 <= k1 < k2 < s.len() ==> leq_frag(#[trigger] s[k1], #[trigger] s[k2])
}

proof fn lemma_leq_frag_total(a: RegmapOptV, b: RegmapOptV)
    ensures
        leq_frag(a, b) || leq_frag(b, a),
{
}

proof fn lemma_insert_frag_elems(s: Seq<RegmapOptV>, x: RegmapOptV)
    ensures
        forall|k: int|
            0 <= k < insert_frag_sorted(s, x).len() ==> #[trigger] insert_frag_sorted(s, x)[k]
                == x || s.contains(insert_frag_sorted(s, x)[k]),
    decreases s.len(),
{
    if s.len() == 0 {
    } else if leq_frag(s.last(), x) {
    } else {
        lemma_insert_frag_elems(s.drop_last(), x);
        assert forall|k: int|
            0 <= k < insert_frag_sorted(s, x).len() implies #[trigger] insert_frag_sorted(
            s,
            x,
        )[k] == x || s.contains(insert_frag_sorted(s, x)[k]) by {
            let e = insert_frag_sorted(s, x)[k];
            if k == insert_frag_sorted(s, x).len() - 1 {
                assert(e == s.last());
                assert(s[s.len() - 1] == e);
            } else {
                assert(e == insert_frag_sorted(s.drop_last(), x)[k]);
                if e != x {
                    assert(s.drop_last().contains(e));
                    let k0 = choose|k0: int|
                        0 <= k0 < s.drop_last().len() && s.drop_last()[k0] == e;
                    assert(s[k0] == e);
                }
            }
        }
    }
}

pub proof fn lemma_sort_frags_elems(s: Seq<RegmapOptV>)
    ensures
        forall|k: int|
            0 <= k < sort_frags(s).len() ==> s.contains(#[trigger] sort_frags(s)[k]),
    decreases s.len(),
{
    if s.len() == 0 {
    } else {
        lemma_sort_frags_elems(s.drop_last());
        lemma_insert_frag_elems(sort_frags(s.drop_last()), s.last());
        assert forall|k: int|
            0 <= k < sort_frags(s).len() implies s.contains(#[trigger] sort_frags(s)[k]) by {
            let e = sort_frags(s)[k];
            if e == s.last() {
                assert(s[s.len() - 1] == e);
            } else {
                assert(sort_frags(s.drop_last()).contains(e));
                let k0 = choose|k0: int|
                    0 <= k0 < sort_frags(s.drop_last()).len() && sort_frags(s.drop_last())[k0]
                        == e;
                assert(s.drop_last().contains(e));
                let k1 = choose|k1: int| 0 <= k1 < s.drop_last().len() && s.drop_last()[k1] == e;
                assert(s[k1] == e);
            }
        }
    }
}

proof fn lemma_insert_frag_keeps_sorted(s: Seq<RegmapOptV>, x: RegmapOptV)
    requires
        frags_sorted(s),
    ensures
        frags_sorted(insert_frag_sorted(s, x)),
    decreases s.len(),
{
    if s.len() == 0 {
    } else if leq_frag(s.last(), x) {
        assert forall|k1: int, k2: int|
            0 <= k1 < k2 < s.push(x).len() implies leq_frag(
            #[trigger] s.push(x)[k1],
            #[trigger] s.push(x)[k2],
        ) by {
            if k2 == s.len() {
                if k1 == s.len() - 1 {
                } else {
                    assert(leq_frag(s[k1], s[s.len() - 1]));
                    lemma_leq_frag_total(s[k1], x);
                    // transitivity by cases on the three offsets
                    assert(leq_frag(s[k1], x));
                }
            }
        }
    } else {
        assert(frags_sorted(s.drop_last()));
        lemma_insert_frag_keeps_sorted(s.drop_last(), x);
        lemma_insert_frag_elems(s.drop_last(), x);
        lemma_leq_frag_total(s.last(), x);
        let t = insert_frag_sorted(s.drop_last(), x);
        assert forall|k1: int, k2: int|
            0 <= k1 < k2 < t.push(s.last()).len() implies leq_frag(
            #[trigger] t.push(s.last())[k1],
            #[trigger] t.push(s.last())[k2],
        ) by {
            if k2 == t.len() {
                let e = t[k1];
                if e == x {
                    assert(leq_frag(e, s.last()));
                } else {
                    assert(s.drop_last().contains(e));
                    let k0 = choose|k0: int|
                        0 <= k0 < s.drop_last().len() && s.drop_last()[k0] == e;
                    assert(leq_frag(s[k0], s[s.len() - 1]));
                }
            }
        }
    }
}

proof fn lemma_insert_frag_multiset(s: Seq<RegmapOptV>, x: RegmapOptV)
    ensures
        insert_frag_sorted(s, x).to_multiset() == s.to_multiset().insert(x),
    decreases s.len(),
{
    broadcast use vstd::seq_lib::group_to_multiset_ensures;

    if s.len() == 0 {
        assert(seq![x] =~= Seq::<RegmapOptV>::empty().push(x));
        assert(insert_frag_sorted(s, x).to_multiset() =~= s.to_multiset().insert(x));
    } else if leq_frag(s.last(), x) {
    } else {
        lemma_insert_frag_multiset(s.drop_last(), x);
        assert(s.drop_last().push(s.last()) =~= s);
        assert(insert_frag_sorted(s, x).to_multiset() == insert_frag_sorted(
            s.drop_last(),
            x,
        ).to_multiset().insert(s.last()));
        assert(s.drop_last().to_multiset().insert(x).insert(s.last())
            =~= s.drop_last().to_multiset().insert(s.last()).insert(x));
        assert(insert_frag_sorted(s, x).to_multiset() =~= s.to_multiset().insert(x));
    }
}

proof fn lemma_sort_frags_multiset(s: Seq<RegmapOptV>)
    ensures
        sort_frags(s).to_multiset() == s.to_multiset(),
    decreases s.len(),
{
    broadcast use vstd::seq_lib::group_to_multiset_ensures;

    if s.len() == 0 {
    } else {
        lemma_sort_frags_multiset(s.drop_last());
        lemma_insert_frag_multiset(sort_frags(s.drop_last()), s.last());
        assert(s.drop_last().push(s.last()) =~= s);
        assert(sort_frags(s).to_multiset() =~= s.to_multiset());
    }
}

/// An element of the input list reappears somewhere in the sorted list.
proof fn lemma_sorted_has_element(s: Seq<RegmapOptV>, i: int) -> (k: int)
    requires
        0 <= i < s.len(),
    ensures
        0 <= k < sort_frags(s).len(),
        sort_frags(s)[k] == s[i],
{
    broadcast use vstd::seq_lib::group_to_multiset_ensures;

    lemma_sort_frags_multiset(s);
    assert(s.contains(s[i]));
    assert(s.to_multiset().count(s[i]) > 0);
    assert(sort_frags(s).contains(s[i]));
    choose|k: int| 0 <= k < sort_frags(s).len() && sort_frags(s)[k] == s[i]
}

pub proof fn lemma_sort_frags_sorted(s: Seq<RegmapOptV>)
    ensures
        frags_sorted(sort_frags(s)),
    decreases s.len(),
{
    if s.len() == 0 {
    } else {
        lemma_sort_frags_sorted(s.drop_last());
        lemma_insert_frag_keeps_sorted(sort_frags(s.drop_last()), s.last());
    }
}

pub proof fn lemma_sort_sorted_identity(s: Seq<RegmapOptV>)
    requires
        frags_sorted(s),
    ensures
        sort_frags(s) == s,
    decreases s.len(),
{
    if s.len() == 0 {
        assert(sort_frags(s) =~= s);
    } else {
        assert(frags_sorted(s.drop_last()));
        lemma_sort_sorted_identity(s.drop_last());
        if s.len() >= 2 {
            assert(leq_frag(s[s.len() - 2], s[s.len() - 1]));
            assert(s.drop_last().last() == s[s.len() - 2]);
        }
        assert(insert_frag_sorted(s.drop_last(), s.last()) =~= s);
    }
}

/// Law: resolution is idempotent.  The merge leaves the fragment list in
/// address order, and resolving that reordered list gives exactly the same
/// result — so resolving the same input twice yields structurally identical
/// output, a map or an error alike.
pub proof fn law_resolution_idempotent(frags: Seq<RegmapOptV>)
    ensures
        resolve_regmaps(sort_frags(frags)) == resolve_regmaps(frags),
{
    let sorted = sort_frags(frags);
    lemma_sort_frags_len(frags);
    if frags.len() == 0 {
        assert(sorted =~= frags);
    } else if !frags_word_sizes_agree(frags) {
        // some word size differs; the same two fragments sit in the sorted
        // list, so it is rejected the same way
        let i = choose|i: int|
            0 <= i < frags.len() && (#[trigger] frags[i]).word_size_b != frags[0].word_size_b;
        let k0 = lemma_sorted_has_element(frags, 0);
        let k1 = lemma_sorted_has_element(frags, i);
        assert(!frags_word_sizes_agree(sorted)) by {
            if frags_word_sizes_agree(sorted) {
                assert(sorted[k0].word_size_b == sorted[0].word_size_b);
                assert(sorted[k1].word_size_b == sorted[0].word_size_b);
            }
        }
    } else {
        lemma_sort_frags_elems(frags);
        assert forall|i: int|
            0 <= i < sorted.len() implies #[trigger] sorted[i].word_size_b
            == frags[0].word_size_b by {
            assert(frags.contains(sorted[i]));
            let k = choose|k: int| 0 <= k < frags.len() && frags[k] == sorted[i];
            assert(frags[k].word_size_b == frags[0].word_size_b);
        }
        assert(sorted[0].word_size_b == frags[0].word_size_b);
        assert(frags_word_sizes_agree(sorted));
        lemma_sort_frags_sorted(frags);
        lemma_sort_sorted_identity(sorted);
    }
}

// ---------------------------------------------------------------------------
// Pack/unpack round trip
// ---------------------------------------------------------------------------

/// All field names within the register differ.
pub open spec fn distinct_field_names(fields: Seq<FlatFieldV>) -> bool {
    forall|k1: int, k2: int|
        0 <= k1 < k2 < fields.len() ==> (#[trigger] fields[k1]).name != (
        #[trigger] fields[k2]).name
}

proof fn lemma_field_index_from(fields: Seq<FlatFieldV>, i: int, j: int)
    requires
        0 <= j <= i < fields.len(),
        forall|k: int| j <= k < i ==> (#[trigger] fields[k]).name != fields[i].name,
    ensures
        field_index(fields, fields[i].name, j) == i,
    decreases i - j,
{
    if j == i {
    } else {
        lemma_field_index_from(fields, i, j + 1);
    }
}

proof fn lemma_piece_extract(w: u32, o: u32, s: u32)
    requires
        1 <= s,
        o + s <= 32,
    ensures
        ((((w >> o) & (((1u64 << (s as u64)) - 1) as u32))) & (((1u64 << (s as u64)) - 1) as u32))
            << o == w & ((((1u64 << (s as u64)) - 1) as u32) << o),
{
    assert((((w >> o) & (((1u64 << (s as u64)) - 1) as u32)) & (((1u64 << (s as u64))
        - 1) as u32)) << o == w & ((((1u64 << (s as u64)) - 1) as u32) << o)) by (bit_vector)
        requires
            1 <= s,
            o + s <= 32,
    ;
}

proof fn lemma_or_fold(acc: u32, w: u32, a: u32, b: u32)
    ensures
        (acc | (w & a)) | (w & b) == acc | (w & (a | b)),
{
    assert((acc | (w & a)) | (w & b) == acc | (w & (a | b))) by (bit_vector);
}

proof fn lemma_pack_unpack_rec(fields: Seq<FlatFieldV>, w: u32, i: int, acc: u32)
    requires
        0 <= i,
        distinct_field_names(fields),
        fields_fit_word(fields),
    ensures
        pack_fields(fields, unpack_fields(fields, w), i, acc) == acc | (w & cover_mask(
            fields,
            i,
        )),
    decreases fields.len() - i,
{
    let given = unpack_fields(fields, w);
    if i >= fields.len() {
        assert(pack_fields(fields, given, i, acc) == acc);
        assert(acc | (w & 0u32) == acc) by (bit_vector);
    } else {
        assert(given[i] == (fields[i].name, field_value(w, fields[i].offset_b, fields[i].size_b)));
        lemma_field_index_from(fields, i, 0);
        assert(field_index(fields, given[i].0, 0) == i);
        let f = fields[i];
        let piece = pack_piece(given[i].1, f.offset_b, f.size_b);
        let cpiece = pack_piece(0xffff_ffffu32, f.offset_b, f.size_b);
        if f.size_b == 0 {
            assert(piece == 0u32);
            assert(cpiece == 0u32);
            assert(piece == w & cpiece) by (bit_vector)
                requires
                    piece == 0u32,
                    cpiece == 0u32,
            ;
        } else {
            let o = f.offset_b as u32;
            let s = f.size_b as u32;
            let m = ((1u64 << (s as u64)) - 1) as u32;
            lemma_piece_extract(w, o, s);
            assert(given[i].1 == (w >> o) & m);
            assert(piece == ((w >> o) & m & m) << o) by {
                assert(((w >> o) & m) & m == (w >> o) & m) by (bit_vector);
            }
            assert(cpiece == (0xffff_ffffu32 & m) << o);
            assert(0xffff_ffffu32 & m == m) by (bit_vector);
            assert(piece == w & cpiece);
        }
        lemma_pack_unpack_rec(fields, w, i + 1, acc | piece);
        lemma_or_fold(acc, w, cpiece, cover_mask(fields, i + 1));
        assert(cover_mask(fields, i) == cpiece | cover_mask(fields, i + 1));
    }
}

/// Law: packing what was unpacked restores the raw word, for any register
/// whose distinctly named fields together cover every bit of the word.
/// Padding bits outside the fields are dropped by design: without full
/// coverage the round trip returns the word with the uncovered bits cleared.
pub proof fn law_pack_unpack_roundtrip(fields: Seq<FlatFieldV>, w: u32)
    requires
        distinct_field_names(fields),
        fields_fit_word(fields),
        cover_mask(fields, 0) == 0xffff_ffffu32,
    ensures
        pack_fields(fields, unpack_fields(fields, w), 0, 0u32) == w,
{
    lemma_pack_unpack_rec(fields, w, 0, 0u32);
    assert(0u32 | (w & 0xffff_ffffu32) == w) by (bit_vector);
}

} // verus!
