//! The versioned wire format: a fixed magic constant, a version byte, then one
//! MessagePack array holding the schema's fields in canonical order. New fields
//! may only ever be appended to the end of the record.

use vstd::prelude::*;

verus! {

use crate::codec::{
    bounded_nested_list, bounded_pair_list, bounded_str, bounded_str_list, mp_nested_decode,
    mp_nested_list,
    mp_pair_decode, mp_pair_list, mp_str_decode, mp_str_list, read_nested_list, read_pair_list,
    read_str_list, strict_prefix_of, write_nested_list, write_pair_list, write_str_list,
};
use crate::errors::{DeserializationError, SerializationError};
use crate::order::{
    lemma_sort_by_str_key_ensures, lemma_sorted_strings_canonical, sort_by_str_key, str_key,
};
use crate::state::{
    entry_key, keys_of, lemma_entry_keys_nodup, lemma_entry_maps_agree, lemma_nodup_transfer,
    lemma_same_multiset_same_set, lemma_sorted_entries_canonical, nested_views_of, pair_views_of,
    pairs_to_map, views_of, Blocker, CosmeticFilterCache, HostnameRuleDb, NetworkFilterList,
    RedirectResourceStorage, ScriptletResourceStorage, sort_entries, sort_strings, StringMultiMap,
    StringSet,
};

/// The blob's leading bytes: a four-byte magic constant and the version byte.
pub open spec fn blob_header() -> Seq<u8> {
    seq![0x46u8, 0x43u8, 0x46u8, 0x30u8, 0x00u8]
}

/// MessagePack array header for an array of `n` elements.
pub open spec fn array_header(n: int) -> Seq<u8> {
    if n < 16 {
        seq![(0x90 + n) as u8]
    } else if n < 65536 {
        seq![0xdcu8, (n / 256) as u8, (n % 256) as u8]
    } else {
        seq![
            0xddu8,
            ((n / 0x1000000) % 256) as u8,
            ((n / 0x10000) % 256) as u8,
            ((n / 256) % 256) as u8,
            (n % 256) as u8,
        ]
    }
}

/// Parses a MessagePack array header from the front of `s`: the element count
/// and the header's length, or nothing if `s` does not start with a complete
/// array header.
pub open spec fn parse_array_header(s: Seq<u8>) -> Option<(int, int)> {
    if s.len() < 1 {
        None
    } else if 0x90 <= s[0] && s[0] <= 0x9f {
        Some(((s[0] - 0x90) as int, 1))
    } else if s[0] == 0xdc {
        if s.len() >= 3 {
            Some((s[1] * 256 + s[2], 3))
        } else {
            None
        }
    } else if s[0] == 0xdd {
        if s.len() >= 5 {
            Some((s[1] * 0x1000000 + s[2] * 0x10000 + s[3] * 256 + s[4], 5))
        } else {
            None
        }
    } else {
        None
    }
}

/// An array header followed by anything parses back to its own count and length.
pub proof fn lemma_parse_array_header_roundtrip(n: int, rest: Seq<u8>)
    requires
        0 <= n < 0x100000000,
    ensures
        parse_array_header(array_header(n) + rest) == Some((n, array_header(n).len() as int)),
{
    let s = array_header(n) + rest;
    if n < 16 {
        assert(s[0] == (0x90 + n) as u8);
        assert((s[0] - 0x90) as int == n);
    } else if n < 65536 {
        assert(s[0] == 0xdcu8 && s[1] == (n / 256) as u8 && s[2] == (n % 256) as u8);
        assert(n / 256 < 256 && n / 256 >= 0) by (nonlinear_arith)
            requires 16 <= n < 65536;
        assert(0 <= n % 256 < 256);
        vstd::arithmetic::div_mod::lemma_fundamental_div_mod(n, 256);
        assert(s[1] * 256 + s[2] == n);
    } else {
        assert(s[0] == 0xddu8);
        let b1 = (n / 0x1000000) % 256;
        let b2 = (n / 0x10000) % 256;
        let b3 = (n / 256) % 256;
        let b4 = n % 256;
        assert(s[1] == b1 as u8 && s[2] == b2 as u8 && s[3] == b3 as u8 && s[4] == b4 as u8);
        assert(b1 * 0x1000000 + b2 * 0x10000 + b3 * 256 + b4 == n) by (nonlinear_arith)
            requires
                0x10000 <= n < 0x100000000,
                b1 == (n / 0x1000000) % 256,
                b2 == (n / 0x10000) % 256,
                b3 == (n / 256) % 256,
                b4 == n % 256;
    }
}

/// The ghost image of one engine state as the schema sees it: the seventeen
/// fields of the record, in canonical field order.
#[verifier::ext_equal]
pub ghost struct FormatView {
    pub csp: Seq<Seq<char>>,
    pub exceptions: Seq<Seq<char>>,
    pub importants: Seq<Seq<char>>,
    pub redirects: Seq<Seq<char>>,
    pub filters_tagged: Seq<Seq<char>>,
    pub filters: Seq<Seq<char>>,
    pub generic_hide: Seq<Seq<char>>,
    pub tagged_filters_all: Seq<Seq<char>>,
    pub enable_optimizations: bool,
    pub resources: Seq<(Seq<char>, Seq<char>)>,
    pub simple_class_rules: Seq<Seq<char>>,
    pub simple_id_rules: Seq<Seq<char>>,
    pub complex_class_rules: Seq<(Seq<char>, Seq<Seq<char>>)>,
    pub complex_id_rules: Seq<(Seq<char>, Seq<Seq<char>>)>,
    pub specific_rules: Seq<(Seq<char>, Seq<Seq<char>>)>,
    pub misc_generic_selectors: Seq<Seq<char>>,
    pub scriptlets: Seq<(Seq<char>, Seq<char>)>,
}

/// MessagePack encoding of the boolean optimization flag: one marker byte.
pub open spec fn mp_bool(b: bool) -> Seq<u8> {
    if b {
        seq![0xc3u8]
    } else {
        seq![0xc2u8]
    }
}

/// The encoding of field `i` of the record, in canonical field order.
pub open spec fn field_enc(v: FormatView, i: int) -> Seq<u8> {
    if i == 0 {
        mp_str_list(v.csp)
    } else if i == 1 {
        mp_str_list(v.exceptions)
    } else if i == 2 {
        mp_str_list(v.importants)
    } else if i == 3 {
        mp_str_list(v.redirects)
    } else if i == 4 {
        mp_str_list(v.filters_tagged)
    } else if i == 5 {
        mp_str_list(v.filters)
    } else if i == 6 {
        mp_str_list(v.generic_hide)
    } else if i == 7 {
        mp_str_list(v.tagged_filters_all)
    } else if i == 8 {
        mp_bool(v.enable_optimizations)
    } else if i == 9 {
        mp_pair_list(v.resources)
    } else if i == 10 {
        mp_str_list(v.simple_class_rules)
    } else if i == 11 {
        mp_str_list(v.simple_id_rules)
    } else if i == 12 {
        mp_nested_list(v.complex_class_rules)
    } else if i == 13 {
        mp_nested_list(v.complex_id_rules)
    } else if i == 14 {
        mp_nested_list(v.specific_rules)
    } else if i == 15 {
        mp_str_list(v.misc_generic_selectors)
    } else {
        mp_pair_list(v.scriptlets)
    }
}

/// The concatenated encodings of fields `lo..hi`.
pub open spec fn fields_enc(v: FormatView, lo: int, hi: int) -> Seq<u8>
    decreases hi - lo,
{
    if lo >= hi {
        Seq::empty()
    } else {
        field_enc(v, lo) + fields_enc(v, lo + 1, hi)
    }
}

pub proof fn lemma_fields_enc_split(v: FormatView, lo: int, mid: int, hi: int)
    requires
        lo <= mid <= hi,
    ensures
        fields_enc(v, lo, hi) == fields_enc(v, lo, mid) + fields_enc(v, mid, hi),
    decreases mid - lo,
{
    if lo == mid {
        assert(fields_enc(v, lo, hi) =~= fields_enc(v, lo, mid) + fields_enc(v, mid, hi));
    } else {
        lemma_fields_enc_split(v, lo + 1, mid, hi);
        assert(fields_enc(v, lo, hi) =~= fields_enc(v, lo, mid) + fields_enc(v, mid, hi));
    }
}

/// Appending field `hi` extends the concatenation by its encoding.
pub proof fn lemma_fields_enc_extend(v: FormatView, hi: int)
    requires
        0 <= hi,
    ensures
        fields_enc(v, 0, hi + 1) == fields_enc(v, 0, hi) + field_enc(v, hi),
{
    lemma_fields_enc_split(v, 0, hi, hi + 1);
    assert(fields_enc(v, hi + 1, hi + 1) =~= Seq::<u8>::empty());
    assert(fields_enc(v, hi, hi + 1) =~= field_enc(v, hi) + fields_enc(v, hi + 1, hi + 1));
    assert(field_enc(v, hi) + Seq::<u8>::empty() =~= field_enc(v, hi));
}

/// The same state with its hash-backed collections brought into canonical
/// (sorted) order: what the writer actually puts on the wire.
pub open spec fn canon_view(v: FormatView) -> FormatView {
    FormatView {
        simple_class_rules: sort_by_str_key(str_key(), v.simple_class_rules),
        simple_id_rules: sort_by_str_key(str_key(), v.simple_id_rules),
        complex_class_rules: sort_by_str_key(entry_key(), v.complex_class_rules),
        complex_id_rules: sort_by_str_key(entry_key(), v.complex_id_rules),
        misc_generic_selectors: sort_by_str_key(str_key(), v.misc_generic_selectors),
        ..v
    }
}

/// The full wire image of a state: header, field count, then the seventeen
/// fields in canonical field order with canonically ordered collections.
pub open spec fn wire_of(v: FormatView) -> Seq<u8> {
    blob_header() + array_header(17) + fields_enc(canon_view(v), 0, 17)
}

/// Sorting keeps a string list within the encoder's bounds: the sorted form
/// has the same length and the same elements.
proof fn lemma_sorted_bounded_strs(q: Seq<Seq<char>>)
    requires
        bounded_str_list(q),
    ensures
        bounded_str_list(sort_by_str_key(str_key(), q)),
{
    broadcast use vstd::seq_lib::group_to_multiset_ensures;

    lemma_sort_by_str_key_ensures(str_key(), q);
    let sorted = sort_by_str_key(str_key(), q);
    assert forall|i: int| 0 <= i < sorted.len() implies bounded_str(sorted[i]) by {
        assert(sorted.contains(sorted[i]));
        assert(sorted.to_multiset().count(sorted[i]) > 0);
        assert(q.contains(sorted[i]));
        let j = choose|j: int| 0 <= j < q.len() && q[j] == sorted[i];
        assert(bounded_str(q[j]));
    }
}

/// Sorting keeps an entry list within the encoder's bounds.
proof fn lemma_sorted_bounded_entries(q: Seq<(Seq<char>, Seq<Seq<char>>)>)
    requires
        bounded_nested_list(q),
    ensures
        bounded_nested_list(sort_by_str_key(entry_key(), q)),
{
    broadcast use vstd::seq_lib::group_to_multiset_ensures;

    lemma_sort_by_str_key_ensures(entry_key(), q);
    let sorted = sort_by_str_key(entry_key(), q);
    assert forall|i: int|
        0 <= i < sorted.len() implies bounded_str(sorted[i].0) && bounded_str_list(
        sorted[i].1,
    ) by {
        assert(sorted.contains(sorted[i]));
        assert(sorted.to_multiset().count(sorted[i]) > 0);
        assert(q.contains(sorted[i]));
        let j = choose|j: int| 0 <= j < q.len() && q[j] == sorted[i];
        assert(bounded_str(q[j].0) && bounded_str_list(q[j].1));
    }
}

/// Canonical ordering keeps a state within the encoder's bounds.
proof fn lemma_canon_bounded(v: FormatView)
    requires
        v.bounded(),
    ensures
        canon_view(v).bounded(),
{
    lemma_sorted_bounded_strs(v.simple_class_rules);
    lemma_sorted_bounded_strs(v.simple_id_rules);
    lemma_sorted_bounded_strs(v.misc_generic_selectors);
    lemma_sorted_bounded_entries(v.complex_class_rules);
    lemma_sorted_bounded_entries(v.complex_id_rules);
}

/// Structural aggregation of borrowed engine state, so that writing a blob
/// does not copy any of the referenced collections.
pub struct SerializeFormat<'a> {
    pub csp: &'a NetworkFilterList,
    pub exceptions: &'a NetworkFilterList,
    pub importants: &'a NetworkFilterList,
    pub redirects: &'a NetworkFilterList,
    pub filters_tagged: &'a NetworkFilterList,
    pub filters: &'a NetworkFilterList,
    pub generic_hide: &'a NetworkFilterList,
    pub tagged_filters_all: &'a Vec<String>,
    pub enable_optimizations: bool,
    pub resources: &'a RedirectResourceStorage,
    pub simple_class_rules: &'a StringSet,
    pub simple_id_rules: &'a StringSet,
    pub complex_class_rules: &'a StringMultiMap,
    pub complex_id_rules: &'a StringMultiMap,
    pub specific_rules: &'a HostnameRuleDb,
    pub misc_generic_selectors: &'a StringSet,
    pub scriptlets: &'a ScriptletResourceStorage,
}

impl<'a> View for SerializeFormat<'a> {
    type V = FormatView;

    open spec fn view(&self) -> FormatView {
        FormatView {
            csp: self.csp@,
            exceptions: self.exceptions@,
            importants: self.importants@,
            redirects: self.redirects@,
            filters_tagged: self.filters_tagged@,
            filters: self.filters@,
            generic_hide: self.generic_hide@,
            tagged_filters_all: views_of(self.tagged_filters_all@),
            enable_optimizations: self.enable_optimizations,
            resources: self.resources@,
            simple_class_rules: self.simple_class_rules@,
            simple_id_rules: self.simple_id_rules@,
            complex_class_rules: self.complex_class_rules@,
            complex_id_rules: self.complex_id_rules@,
            specific_rules: self.specific_rules@,
            misc_generic_selectors: self.misc_generic_selectors@,
            scriptlets: self.scriptlets@,
        }
    }
}

impl<'a> SerializeFormat<'a> {
    /// Writes the framing header and the full record. The bytes are a function
    /// of the state's view alone: states with equal views — however their
    /// hash-backed collections happen to be ordered internally — serialize to
    /// identical bytes.
    pub fn serialize(&self) -> (r: Result<Vec<u8>, SerializationError>)
        ensures
            r is Ok,
            r->Ok_0@ == wire_of(self@),
    {
        let ghost cv = canon_view(self@);
        let mut out: Vec<u8> = Vec::new();
        out.push(0x46u8);
        out.push(0x43u8);
        out.push(0x46u8);
        out.push(0x30u8);
        out.push(0x00u8);
        out.push(0xdcu8);
        out.push(0x00u8);
        out.push(0x11u8);
        proof {
            assert(array_header(17) =~= seq![0xdcu8, 0x00u8, 0x11u8]);
            assert(out@ =~= blob_header() + array_header(17) + fields_enc(cv, 0, 0));
        }
        write_str_list(&mut out, &self.csp.filters)?;
        proof {
            lemma_fields_enc_extend(cv, 0);
            assert(out@ =~= blob_header() + array_header(17) + fields_enc(cv, 0, 1));
        }
        write_str_list(&mut out, &self.exceptions.filters)?;
        proof {
            lemma_fields_enc_extend(cv, 1);
            assert(out@ =~= blob_header() + array_header(17) + fields_enc(cv, 0, 2));
        }
        write_str_list(&mut out, &self.importants.filters)?;
        proof {
            lemma_fields_enc_extend(cv, 2);
            assert(out@ =~= blob_header() + array_header(17) + fields_enc(cv, 0, 3));
        }
        write_str_list(&mut out, &self.redirects.filters)?;
        proof {
            lemma_fields_enc_extend(cv, 3);
            assert(out@ =~= blob_header() + array_header(17) + fields_enc(cv, 0, 4));
        }
        write_str_list(&mut out, &self.filters_tagged.filters)?;
        proof {
            lemma_fields_enc_extend(cv, 4);
            assert(out@ =~= blob_header() + array_header(17) + fields_enc(cv, 0, 5));
        }
        write_str_list(&mut out, &self.filters.filters)?;
        proof {
            lemma_fields_enc_extend(cv, 5);
            assert(out@ =~= blob_header() + array_header(17) + fields_enc(cv, 0, 6));
        }
        write_str_list(&mut out, &self.generic_hide.filters)?;
        proof {
            lemma_fields_enc_extend(cv, 6);
            assert(out@ =~= blob_header() + array_header(17) + fields_enc(cv, 0, 7));
        }
        write_str_list(&mut out, self.tagged_filters_all)?;
        proof {
            lemma_fields_enc_extend(cv, 7);
            assert(out@ =~= blob_header() + array_header(17) + fields_enc(cv, 0, 8));
        }
        out.push(if self.enable_optimizations { 0xc3u8 } else { 0xc2u8 });
        proof {
            lemma_fields_enc_extend(cv, 8);
            assert(out@ =~= blob_header() + array_header(17) + fields_enc(cv, 0, 9));
        }
        write_pair_list(&mut out, &self.resources.entries)?;
        proof {
            lemma_fields_enc_extend(cv, 9);
            assert(out@ =~= blob_header() + array_header(17) + fields_enc(cv, 0, 10));
        }
        let sorted_class = sort_strings(&self.simple_class_rules.elems);
        write_str_list(&mut out, &sorted_class)?;
        proof {
            lemma_fields_enc_extend(cv, 10);
            assert(out@ =~= blob_header() + array_header(17) + fields_enc(cv, 0, 11));
        }
        let sorted_id = sort_strings(&self.simple_id_rules.elems);
        write_str_list(&mut out, &sorted_id)?;
        proof {
            lemma_fields_enc_extend(cv, 11);
            assert(out@ =~= blob_header() + array_header(17) + fields_enc(cv, 0, 12));
        }
        let sorted_complex_class = sort_entries(&self.complex_class_rules.entries);
        write_nested_list(&mut out, &sorted_complex_class)?;
        proof {
            lemma_fields_enc_extend(cv, 12);
            assert(out@ =~= blob_header() + array_header(17) + fields_enc(cv, 0, 13));
        }
        let sorted_complex_id = sort_entries(&self.complex_id_rules.entries);
        write_nested_list(&mut out, &sorted_complex_id)?;
        proof {
            lemma_fields_enc_extend(cv, 13);
            assert(out@ =~= blob_header() + array_header(17) + fields_enc(cv, 0, 14));
        }
        write_nested_list(&mut out, &self.specific_rules.entries)?;
        proof {
            lemma_fields_enc_extend(cv, 14);
            assert(out@ =~= blob_header() + array_header(17) + fields_enc(cv, 0, 15));
        }
        let sorted_misc = sort_strings(&self.misc_generic_selectors.elems);
        write_str_list(&mut out, &sorted_misc)?;
        proof {
            lemma_fields_enc_extend(cv, 15);
            assert(out@ =~= blob_header() + array_header(17) + fields_enc(cv, 0, 16));
        }
        write_pair_list(&mut out, &self.scriptlets.entries)?;
        proof {
            lemma_fields_enc_extend(cv, 16);
            assert(out@ =~= blob_header() + array_header(17) + fields_enc(cv, 0, 17));
        }
        Ok(out)
    }
}


/// `n` capped at the seventeen fields this reader knows.
pub open spec fn min17(n: int) -> int {
    if n < 17 {
        n
    } else {
        17
    }
}

/// A record payload for a writer that knows `n` fields: header, count, the
/// known prefix of the fields, and (for future writers) the unknown tail.
pub open spec fn rec_payload(v: FormatView, n: int, rest: Seq<u8>) -> Seq<u8> {
    blob_header() + array_header(n) + fields_enc(v, 0, min17(n)) + rest
}

/// The input is a well-formed record for some schema width `n`: written by an
/// older writer (fewer fields, no tail) or a newer one (more fields, whose
/// extra encodings form the tail).
pub open spec fn wire_hyp(bytes: Seq<u8>, v: FormatView, n: int, rest: Seq<u8>) -> bool {
    &&& 0 <= n < 0x100000000
    &&& v.bounded()
    &&& bytes == rec_payload(v, n, rest)
    &&& n <= 17 ==> rest == Seq::<u8>::empty()
}

/// The complete wire image of a seventeen-field record, fields as given.
pub open spec fn full_wire(w: FormatView) -> Seq<u8> {
    blob_header() + array_header(17) + fields_enc(w, 0, 17)
}

/// The input is a seventeen-field record cut off after `m` bytes, somewhere
/// past the framing header but strictly before the end.
pub open spec fn trunc_hyp(bytes: Seq<u8>, w: FormatView, m: int) -> bool {
    &&& w.bounded()
    &&& 5 <= m < full_wire(w).len()
    &&& bytes == full_wire(w).subrange(0, m)
}

/// The byte offset at which field `k` starts (equivalently: ends, for `k + 1`)
/// in a record of width `n`.
pub open spec fn bnd(v: FormatView, n: int, k: int) -> int {
    5 + array_header(n).len() as int + fields_enc(
        v,
        0,
        if k < min17(n) {
            k
        } else {
            min17(n)
        },
    ).len() as int
}

/// The state a reader reconstructs from a record carrying only the first `k`
/// fields: the missing trailing fields take their defaults.
pub open spec fn defaulted(v: FormatView, k: int) -> FormatView {
    FormatView {
        csp: if 0 < k {
            v.csp
        } else {
            Seq::empty()
        },
        exceptions: if 1 < k {
            v.exceptions
        } else {
            Seq::empty()
        },
        importants: if 2 < k {
            v.importants
        } else {
            Seq::empty()
        },
        redirects: if 3 < k {
            v.redirects
        } else {
            Seq::empty()
        },
        filters_tagged: if 4 < k {
            v.filters_tagged
        } else {
            Seq::empty()
        },
        filters: if 5 < k {
            v.filters
        } else {
            Seq::empty()
        },
        generic_hide: if 6 < k {
            v.generic_hide
        } else {
            Seq::empty()
        },
        tagged_filters_all: if 7 < k {
            v.tagged_filters_all
        } else {
            Seq::empty()
        },
        enable_optimizations: if 8 < k {
            v.enable_optimizations
        } else {
            false
        },
        resources: if 9 < k {
            v.resources
        } else {
            Seq::empty()
        },
        simple_class_rules: if 10 < k {
            v.simple_class_rules
        } else {
            Seq::empty()
        },
        simple_id_rules: if 11 < k {
            v.simple_id_rules
        } else {
            Seq::empty()
        },
        complex_class_rules: if 12 < k {
            v.complex_class_rules
        } else {
            Seq::empty()
        },
        complex_id_rules: if 13 < k {
            v.complex_id_rules
        } else {
            Seq::empty()
        },
        specific_rules: if 14 < k {
            v.specific_rules
        } else {
            Seq::empty()
        },
        misc_generic_selectors: if 15 < k {
            v.misc_generic_selectors
        } else {
            Seq::empty()
        },
        scriptlets: if 16 < k {
            v.scriptlets
        } else {
            Seq::empty()
        },
    }
}

/// What the decoder decides for field `k` at cursor `pos` in a record of
/// width `n`: the next cursor position, or nothing if it fails. A function of
/// the bytes alone, field kind by field kind.
#[verifier::opaque]
pub open spec fn field_step(bytes: Seq<u8>, n: int, pos: int, k: int) -> Option<int> {
    if k >= n {
        Some(pos)
    } else if k == 8 {
        if pos < bytes.len() && (bytes[pos] == 0xc3 || bytes[pos] == 0xc2) {
            Some(pos + 1)
        } else {
            None
        }
    } else if k == 9 || k == 16 {
        match mp_pair_decode(bytes.skip(pos)) {
            Some(step) => Some(pos + step.1),
            None => None,
        }
    } else if k == 12 || k == 13 || k == 14 {
        match mp_nested_decode(bytes.skip(pos)) {
            Some(step) => Some(pos + step.1),
            None => None,
        }
    } else {
        match mp_str_decode(bytes.skip(pos)) {
            Some(step) => Some(pos + step.1),
            None => None,
        }
    }
}

/// The cursor position after reading fields `k..17`, or nothing if the
/// decoder fails on one of them.
#[verifier::opaque]
pub open spec fn fields_pos(bytes: Seq<u8>, n: int, pos: int, k: int) -> Option<int>
    decreases 17 - k,
{
    if k >= 17 {
        Some(pos)
    } else {
        match field_step(bytes, n, pos, k) {
            Some(next) => fields_pos(bytes, n, next, k + 1),
            None => None,
        }
    }
}

/// The payload decodes: the array header parses and every known field
/// decodes. With valid framing this decides `deserialize`'s outcome, so the
/// outcome is a function of the input bytes.
pub open spec fn payload_decodes(bytes: Seq<u8>) -> bool {
    match parse_array_header(bytes.skip(5)) {
        Some(h) => fields_pos(bytes, h.0, 5 + h.1, 0) is Some,
        None => false,
    }
}

/// The hypotheses under which `read_record` runs: a well-formed record, with
/// the cursor just past the array header.
pub open spec fn rec_hyp(bytes: Seq<u8>, v: FormatView, n: int, rest: Seq<u8>, pos: int) -> bool {
    wire_hyp(bytes, v, n, rest) && pos == 5 + array_header(n).len()
}

/// The truncation hypotheses under which `read_record` runs.
pub open spec fn trec_hyp(bytes: Seq<u8>, w: FormatView, m: int, n: int, pos: int) -> bool {
    trunc_hyp(bytes, w, m) && n == 17 && pos == 8 && m >= 8
}

/// In a well-formed record, field `k`'s encoding starts exactly at its
/// boundary offset and is fully present.
proof fn lemma_field_window(bytes: Seq<u8>, v: FormatView, n: int, rest: Seq<u8>, k: int)
    requires
        wire_hyp(bytes, v, n, rest),
        0 <= k < min17(n),
    ensures
        field_enc(v, k).is_prefix_of(bytes.skip(bnd(v, n, k))),
        bnd(v, n, k + 1) == bnd(v, n, k) + field_enc(v, k).len(),
        bnd(v, n, k) + field_enc(v, k).len() <= bytes.len(),
        bnd(v, n, k) >= 0,
{
    let kk = min17(n);
    lemma_fields_enc_split(v, 0, k, kk);
    lemma_fields_enc_extend(v, k);
    assert(fields_enc(v, k, kk) == field_enc(v, k) + fields_enc(v, k + 1, kk));
    let pre = blob_header() + array_header(n) + fields_enc(v, 0, k);
    assert(pre.len() == bnd(v, n, k));
    assert(bytes =~= pre + (field_enc(v, k) + (fields_enc(v, k + 1, kk) + rest)));
    assert(bytes.skip(pre.len() as int) =~= field_enc(v, k) + (fields_enc(v, k + 1, kk) + rest));
    assert(bytes.skip(bnd(v, n, k)).subrange(0, field_enc(v, k).len() as int) =~= field_enc(v, k));
    if k + 1 < kk {
        assert(bnd(v, n, k + 1) == 5 + array_header(n).len() + fields_enc(v, 0, k + 1).len());
    } else {
        assert(bnd(v, n, k + 1) == 5 + array_header(n).len() + fields_enc(v, 0, kk).len());
        assert(fields_enc(v, 0, k + 1).len() == fields_enc(v, 0, kk).len());
    }
}

/// In a truncated record, at field `k`'s boundary the remaining bytes either
/// contain the whole field encoding or a proper prefix of it.
proof fn lemma_trunc_window(bytes: Seq<u8>, w: FormatView, m: int, k: int)
    requires
        trunc_hyp(bytes, w, m),
        0 <= k < 17,
        m >= 8 + fields_enc(w, 0, k).len(),
    ensures
        m >= 8 + fields_enc(w, 0, k + 1).len() ==> field_enc(w, k).is_prefix_of(
            bytes.skip(8 + fields_enc(w, 0, k).len() as int),
        ),
        m < 8 + fields_enc(w, 0, k + 1).len() ==> strict_prefix_of(
            bytes.skip(8 + fields_enc(w, 0, k).len() as int),
            field_enc(w, k),
        ),
        fields_enc(w, 0, k + 1).len() == fields_enc(w, 0, k).len() + field_enc(w, k).len(),
        bytes.len() == m,
{
    let full = full_wire(w);
    let pos: int = 8 + fields_enc(w, 0, k).len() as int;
    lemma_fields_enc_extend(w, k);
    lemma_fields_enc_split(w, 0, k, 17);
    lemma_fields_enc_split(w, k, k + 1, 17);
    assert(fields_enc(w, k, 17) == field_enc(w, k) + fields_enc(w, k + 1, 17));
    assert(blob_header().len() == 5 && array_header(17).len() == 3);
    let pre = blob_header() + array_header(17) + fields_enc(w, 0, k);
    assert(pre.len() == pos);
    assert(full =~= pre + (field_enc(w, k) + fields_enc(w, k + 1, 17)));
    assert(full.subrange(pos, pos + field_enc(w, k).len() as int) =~= field_enc(w, k));
    assert(bytes.skip(pos) =~= full.subrange(pos, m));
    if m >= pos + field_enc(w, k).len() {
        assert(full.subrange(pos, m).subrange(0, field_enc(w, k).len() as int) =~= full.subrange(
            pos,
            pos + field_enc(w, k).len() as int,
        ));
        assert(field_enc(w, k).is_prefix_of(bytes.skip(pos)));
    } else {
        assert(full.subrange(pos, m) =~= field_enc(w, k).subrange(0, m - pos));
    }
}

/// Reads field number `idx` of a record of width `n`: absent trailing fields
/// take their default (an empty collection).
fn read_str_list_field(bytes: &[u8], pos: usize, idx: u32, n: u32) -> (r: Result<
    (Vec<String>, usize),
    DeserializationError,
>)
    requires
        pos <= bytes@.len(),
    ensures
        idx >= n ==> r is Ok && r->Ok_0.0@ == Seq::<String>::empty() && r->Ok_0.1 == pos,
        idx < n ==> ((r is Ok) == (mp_str_decode(bytes@.skip(pos as int)) is Some)),
        idx < n && r is Ok ==> views_of(r->Ok_0.0@) == mp_str_decode(bytes@.skip(pos as int))->Some_0.0
            && r->Ok_0.1 as int == pos + mp_str_decode(bytes@.skip(pos as int))->Some_0.1,
        idx < n ==> (forall|v: Seq<Seq<char>>|
            bounded_str_list(v) && (#[trigger] mp_str_list(v)).is_prefix_of(bytes@.skip(pos as int))
                ==> r is Ok && views_of(r->Ok_0.0@) == v && r->Ok_0.1 == pos + mp_str_list(v).len()),
        idx < n ==> (forall|v: Seq<Seq<char>>|
            bounded_str_list(v) && strict_prefix_of(bytes@.skip(pos as int), #[trigger] mp_str_list(v))
                ==> r is Err),
        idx < n && pos == bytes@.len() ==> r is Err,
        r is Ok ==> pos <= r->Ok_0.1 <= bytes@.len(),
        (idx < 8 || idx == 10 || idx == 11 || idx == 15) ==> field_step(bytes@, n as int, pos as int, idx as int) == (if r is Ok {
            Some(r->Ok_0.1 as int)
        } else {
            Option::<int>::None
        }),
        r is Err ==> r->Err_0 == DeserializationError::DecodeFailed,
{
    proof {
        reveal(field_step);
    }
    if idx < n {
        let total = bytes.len();
        match read_str_list(bytes, pos) {
            Ok(got) => {
                assert(pos + got.1 <= total);
                Ok((got.0, pos + got.1))
            },
            Err(e) => Err(e),
        }
    } else {
        Ok((Vec::new(), pos))
    }
}

/// Reads field number `idx` of a record of width `n`: absent trailing fields
/// take their default (an empty collection).
fn read_pair_list_field(bytes: &[u8], pos: usize, idx: u32, n: u32) -> (r: Result<
    (Vec<(String, String)>, usize),
    DeserializationError,
>)
    requires
        pos <= bytes@.len(),
    ensures
        idx >= n ==> r is Ok && r->Ok_0.0@ == Seq::<(String, String)>::empty() && r->Ok_0.1 == pos,
        idx < n ==> ((r is Ok) == (mp_pair_decode(bytes@.skip(pos as int)) is Some)),
        idx < n && r is Ok ==> pair_views_of(r->Ok_0.0@) == mp_pair_decode(bytes@.skip(pos as int))->Some_0.0
            && r->Ok_0.1 as int == pos + mp_pair_decode(bytes@.skip(pos as int))->Some_0.1,
        idx < n ==> (forall|v: Seq<(Seq<char>, Seq<char>)>|
            bounded_pair_list(v) && (#[trigger] mp_pair_list(v)).is_prefix_of(bytes@.skip(pos as int))
                ==> r is Ok && pair_views_of(r->Ok_0.0@) == v && r->Ok_0.1 == pos + mp_pair_list(v).len()),
        idx < n ==> (forall|v: Seq<(Seq<char>, Seq<char>)>|
            bounded_pair_list(v) && strict_prefix_of(bytes@.skip(pos as int), #[trigger] mp_pair_list(v))
                ==> r is Err),
        idx < n && pos == bytes@.len() ==> r is Err,
        r is Ok ==> pos <= r->Ok_0.1 <= bytes@.len(),
        (idx == 9 || idx == 16) ==> field_step(bytes@, n as int, pos as int, idx as int) == (if r is Ok {
            Some(r->Ok_0.1 as int)
        } else {
            Option::<int>::None
        }),
        r is Err ==> r->Err_0 == DeserializationError::DecodeFailed,
{
    proof {
        reveal(field_step);
    }
    if idx < n {
        let total = bytes.len();
        match read_pair_list(bytes, pos) {
            Ok(got) => {
                assert(pos + got.1 <= total);
                Ok((got.0, pos + got.1))
            },
            Err(e) => Err(e),
        }
    } else {
        Ok((Vec::new(), pos))
    }
}

/// Reads field number `idx` of a record of width `n`: absent trailing fields
/// take their default (an empty collection).
fn read_nested_list_field(bytes: &[u8], pos: usize, idx: u32, n: u32) -> (r: Result<
    (Vec<(String, Vec<String>)>, usize),
    DeserializationError,
>)
    requires
        pos <= bytes@.len(),
    ensures
        idx >= n ==> r is Ok && r->Ok_0.0@ == Seq::<(String, Vec<String>)>::empty() && r->Ok_0.1 == pos,
        idx < n ==> ((r is Ok) == (mp_nested_decode(bytes@.skip(pos as int)) is Some)),
        idx < n && r is Ok ==> nested_views_of(r->Ok_0.0@) == mp_nested_decode(bytes@.skip(pos as int))->Some_0.0
            && r->Ok_0.1 as int == pos + mp_nested_decode(bytes@.skip(pos as int))->Some_0.1,
        idx < n ==> (forall|v: Seq<(Seq<char>, Seq<Seq<char>>)>|
            bounded_nested_list(v) && (#[trigger] mp_nested_list(v)).is_prefix_of(bytes@.skip(pos as int))
                ==> r is Ok && nested_views_of(r->Ok_0.0@) == v && r->Ok_0.1 == pos + mp_nested_list(v).len()),
        idx < n ==> (forall|v: Seq<(Seq<char>, Seq<Seq<char>>)>|
            bounded_nested_list(v) && strict_prefix_of(bytes@.skip(pos as int), #[trigger] mp_nested_list(v))
                ==> r is Err),
        idx < n && pos == bytes@.len() ==> r is Err,
        r is Ok ==> pos <= r->Ok_0.1 <= bytes@.len(),
        (idx == 12 || idx == 13 || idx == 14) ==> field_step(bytes@, n as int, pos as int, idx as int) == (if r is Ok {
            Some(r->Ok_0.1 as int)
        } else {
            Option::<int>::None
        }),
        r is Err ==> r->Err_0 == DeserializationError::DecodeFailed,
{
    proof {
        reveal(field_step);
    }
    if idx < n {
        let total = bytes.len();
        match read_nested_list(bytes, pos) {
            Ok(got) => {
                assert(pos + got.1 <= total);
                Ok((got.0, pos + got.1))
            },
            Err(e) => Err(e),
        }
    } else {
        Ok((Vec::new(), pos))
    }
}

/// Reads a boolean field: one MessagePack marker byte.
fn read_bool_field(bytes: &[u8], pos: usize, idx: u32, n: u32) -> (r: Result<
    (bool, usize),
    DeserializationError,
>)
    requires
        pos <= bytes@.len(),
    ensures
        idx >= n ==> r is Ok && r->Ok_0.0 == false && r->Ok_0.1 == pos,
        idx < n ==> ((r is Ok) == (pos < bytes@.len() && (bytes@[pos as int] == 0xc3 || bytes@[
            pos as int
        ] == 0xc2))),
        idx < n && r is Ok ==> r->Ok_0.0 == (bytes@[pos as int] == 0xc3) && r->Ok_0.1 == pos + 1,
        idx < n ==> (forall|b: bool| #[trigger] mp_bool(b).is_prefix_of(bytes@.skip(pos as int))
            ==> r is Ok && r->Ok_0.0 == b && r->Ok_0.1 == pos + 1),
        idx < n && pos == bytes@.len() ==> r is Err,
        r is Ok ==> pos <= r->Ok_0.1 <= bytes@.len(),
        idx == 8 ==> field_step(bytes@, n as int, pos as int, idx as int) == (if r is Ok {
            Some(r->Ok_0.1 as int)
        } else {
            Option::<int>::None
        }),
        r is Err ==> r->Err_0 == DeserializationError::DecodeFailed,
{
    proof {
        reveal(field_step);
    }
    if idx < n {
        if pos < bytes.len() {
            let b = bytes[pos];
            if b == 0xc3 {
                proof {
                    assert(bytes@.skip(pos as int)[0] == 0xc3u8);
                    assert forall|bb: bool|
                        #[trigger] mp_bool(bb).is_prefix_of(bytes@.skip(pos as int))
                        implies bb == true by {
                        assert(mp_bool(bb)[0] == bytes@.skip(pos as int).subrange(0, 1)[0]);
                        assert(mp_bool(bb)[0] == bytes@.skip(pos as int)[0]);
                    }
                }
                Ok((true, pos + 1))
            } else if b == 0xc2 {
                proof {
                    assert(bytes@.skip(pos as int)[0] == 0xc2u8);
                    assert forall|bb: bool|
                        #[trigger] mp_bool(bb).is_prefix_of(bytes@.skip(pos as int))
                        implies bb == false by {
                        assert(mp_bool(bb)[0] == bytes@.skip(pos as int).subrange(0, 1)[0]);
                        assert(mp_bool(bb)[0] == bytes@.skip(pos as int)[0]);
                    }
                }
                Ok((false, pos + 1))
            } else {
                assert forall|bb: bool| !mp_bool(bb).is_prefix_of(bytes@.skip(pos as int)) by {
                    if mp_bool(bb).is_prefix_of(bytes@.skip(pos as int)) {
                        assert(mp_bool(bb)[0] == bytes@.skip(pos as int).subrange(0, 1)[0]);
                        assert(mp_bool(bb)[0] == bytes@.skip(pos as int)[0]);
                    }
                }
                Err(DeserializationError::DecodeFailed)
            }
        } else {
            Err(DeserializationError::DecodeFailed)
        }
    } else {
        Ok((false, pos))
    }
}

/// Reads a MessagePack array header.
fn read_array_header(bytes: &[u8], pos: usize) -> (r: Result<(u32, usize), DeserializationError>)
    requires
        pos <= bytes@.len(),
    ensures
        parse_array_header(bytes@.skip(pos as int)) is Some ==> r is Ok && r->Ok_0.0 as int
            == parse_array_header(bytes@.skip(pos as int))->Some_0.0 && r->Ok_0.1 as int == pos
            + parse_array_header(bytes@.skip(pos as int))->Some_0.1,
        parse_array_header(bytes@.skip(pos as int)) is None ==> r is Err,
        r is Ok ==> pos < r->Ok_0.1 <= bytes@.len() && r->Ok_0.0 < 0x100000000,
        r is Err ==> r->Err_0 == DeserializationError::DecodeFailed,
{
    let ghost s = bytes@.skip(pos as int);
    if pos >= bytes.len() {
        return Err(DeserializationError::DecodeFailed);
    }
    let b0 = bytes[pos];
    assert(s[0] == b0);
    if 0x90 <= b0 && b0 <= 0x9f {
        Ok(((b0 - 0x90) as u32, pos + 1))
    } else if b0 == 0xdc {
        if bytes.len() - pos >= 3 {
            let b1 = bytes[pos + 1];
            let b2 = bytes[pos + 2];
            assert(s[1] == b1 && s[2] == b2);
            Ok(((b1 as u32) * 256 + (b2 as u32), pos + 3))
        } else {
            Err(DeserializationError::DecodeFailed)
        }
    } else if b0 == 0xdd {
        if bytes.len() - pos >= 5 {
            let b1 = bytes[pos + 1];
            let b2 = bytes[pos + 2];
            let b3 = bytes[pos + 3];
            let b4 = bytes[pos + 4];
            assert(s[1] == b1 && s[2] == b2 && s[3] == b3 && s[4] == b4);
            Ok(
                ((b1 as u32) * 0x1000000 + (b2 as u32) * 0x10000 + (b3 as u32) * 256 + (b4 as u32),
                pos + 5),
            )
        } else {
            Err(DeserializationError::DecodeFailed)
        }
    } else {
        Err(DeserializationError::DecodeFailed)
    }
}

/// Owned engine data as read back from a blob, one field per schema position,
/// ready to be split into the two engine-facing halves.
pub struct DeserializeFormat {
    pub csp: NetworkFilterList,
    pub exceptions: NetworkFilterList,
    pub importants: NetworkFilterList,
    pub redirects: NetworkFilterList,
    pub filters_tagged: NetworkFilterList,
    pub filters: NetworkFilterList,
    pub generic_hide: NetworkFilterList,
    pub tagged_filters_all: Vec<String>,
    pub enable_optimizations: bool,
    pub resources: RedirectResourceStorage,
    pub simple_class_rules: StringSet,
    pub simple_id_rules: StringSet,
    pub complex_class_rules: StringMultiMap,
    pub complex_id_rules: StringMultiMap,
    pub specific_rules: HostnameRuleDb,
    pub misc_generic_selectors: StringSet,
    pub scriptlets: ScriptletResourceStorage,
}

impl View for DeserializeFormat {
    type V = FormatView;

    open spec fn view(&self) -> FormatView {
        FormatView {
            csp: self.csp@,
            exceptions: self.exceptions@,
            importants: self.importants@,
            redirects: self.redirects@,
            filters_tagged: self.filters_tagged@,
            filters: self.filters@,
            generic_hide: self.generic_hide@,
            tagged_filters_all: views_of(self.tagged_filters_all@),
            enable_optimizations: self.enable_optimizations,
            resources: self.resources@,
            simple_class_rules: self.simple_class_rules@,
            simple_id_rules: self.simple_id_rules@,
            complex_class_rules: self.complex_class_rules@,
            complex_id_rules: self.complex_id_rules@,
            specific_rules: self.specific_rules@,
            misc_generic_selectors: self.misc_generic_selectors@,
            scriptlets: self.scriptlets@,
        }
    }
}

/// Reads the record's fields starting at `pos`, for a record announcing `n`
/// fields: known fields past `n` take their defaults, announced fields past
/// the seventeen known ones are ignored.
#[verifier::rlimit(100)]
fn read_record(bytes: &[u8], n: u32, pos: usize) -> (r: Result<
    DeserializeFormat,
    DeserializationError,
>)
    requires
        pos <= bytes@.len(),
    ensures
        forall|v: FormatView, rest: Seq<u8>|
            #[trigger] rec_hyp(bytes@, v, n as int, rest, pos as int) ==> r is Ok && r->Ok_0@
                == defaulted(v, min17(n as int)),
        forall|w: FormatView, m: int|
            #[trigger] trec_hyp(bytes@, w, m, n as int, pos as int) ==> r is Err,
        (r is Ok) == (fields_pos(bytes@, n as int, pos as int, 0) is Some),
        r is Err ==> r->Err_0 == DeserializationError::DecodeFailed,
{
    let cur0 = pos;
    proof {
        assert(fields_pos(bytes@, n as int, pos as int, 0) == fields_pos(
            bytes@,
            n as int,
            cur0 as int,
            0,
        ));
    }
    proof {
        assert forall|v: FormatView, rest: Seq<u8>|
            rec_hyp(bytes@, v, n as int, rest, pos as int) implies cur0 as int == bnd(
            v,
            n as int,
            0,
        ) by {
            assert(fields_enc(v, 0, 0) == Seq::<u8>::empty());
        }
        assert forall|w: FormatView, m: int|
            trec_hyp(bytes@, w, m, n as int, pos as int) implies cur0 as int == 8 + fields_enc(
            w,
            0,
            0,
        ).len() && m >= cur0 as int by {
            assert(fields_enc(w, 0, 0) == Seq::<u8>::empty());
        }
    }
    let (fld0, cur1) = match read_str_list_field(bytes, cur0, 0, n) {
        Ok(x) => x,
        Err(e) => {
            proof {
                assert forall|v: FormatView, rest: Seq<u8>|
                    !rec_hyp(bytes@, v, n as int, rest, pos as int) by {
                    if rec_hyp(bytes@, v, n as int, rest, pos as int) {
                        if 0 < min17(n as int) {
                            lemma_field_window(bytes@, v, n as int, rest, 0);
                            assert(field_enc(v, 0) == mp_str_list(v.csp));
                assert(bounded_str_list(v.csp));
                            assert(false);
                        } else {
                            assert(false);
                        }
                    }
                }
            }
            proof {
                reveal_with_fuel(fields_pos, 1);
                assert(fields_pos(bytes@, n as int, cur0 as int, 0) is None);
                assert(fields_pos(bytes@, n as int, pos as int, 0) is None);
            }
            return Err(e);
        }
    };
    proof {
        assert forall|v: FormatView, rest: Seq<u8>|
            rec_hyp(bytes@, v, n as int, rest, pos as int) implies (views_of(fld0@) == (if 0 < min17(n as int) { v.csp } else { Seq::<Seq<char>>::empty() })
            && cur1 as int == bnd(v, n as int, 1)) by {
            if 0 < min17(n as int) {
                lemma_field_window(bytes@, v, n as int, rest, 0);
                assert(field_enc(v, 0) == mp_str_list(v.csp));
                assert(bounded_str_list(v.csp));
            } else {
                assert(bnd(v, n as int, 1) == bnd(v, n as int, 0));
                assert(views_of(fld0@) =~= Seq::<Seq<char>>::empty());
            }
        }
        assert forall|w: FormatView, m: int|
            trec_hyp(bytes@, w, m, n as int, pos as int) implies (cur1 as int == 8 + fields_enc(
            w,
            0,
            1,
        ).len() && m >= cur1 as int) by {
            lemma_trunc_window(bytes@, w, m, 0);
            assert(field_enc(w, 0) == mp_str_list(w.csp));
                assert(bounded_str_list(w.csp));
            if m < 8 + fields_enc(w, 0, 1).len() {

                assert(false);
            }
        }
    }
        proof {
        reveal_with_fuel(fields_pos, 1);
        assert(fields_pos(bytes@, n as int, pos as int, 0) == fields_pos(
            bytes@,
            n as int,
            cur1 as int,
            1,
        ));
    }
let (fld1, cur2) = match read_str_list_field(bytes, cur1, 1, n) {
        Ok(x) => x,
        Err(e) => {
            proof {
                assert forall|v: FormatView, rest: Seq<u8>|
                    !rec_hyp(bytes@, v, n as int, rest, pos as int) by {
                    if rec_hyp(bytes@, v, n as int, rest, pos as int) {
                        if 1 < min17(n as int) {
                            lemma_field_window(bytes@, v, n as int, rest, 1);
                            assert(field_enc(v, 1) == mp_str_list(v.exceptions));
                assert(bounded_str_list(v.exceptions));
                            assert(false);
                        } else {
                            assert(false);
                        }
                    }
                }
            }
            proof {
                reveal_with_fuel(fields_pos, 1);
                assert(fields_pos(bytes@, n as int, cur1 as int, 1) is None);
                assert(fields_pos(bytes@, n as int, pos as int, 0) is None);
            }
            return Err(e);
        }
    };
    proof {
        assert forall|v: FormatView, rest: Seq<u8>|
            rec_hyp(bytes@, v, n as int, rest, pos as int) implies (views_of(fld1@) == (if 1 < min17(n as int) { v.exceptions } else { Seq::<Seq<char>>::empty() })
            && cur2 as int == bnd(v, n as int, 2)) by {
            if 1 < min17(n as int) {
                lemma_field_window(bytes@, v, n as int, rest, 1);
                assert(field_enc(v, 1) == mp_str_list(v.exceptions));
                assert(bounded_str_list(v.exceptions));
            } else {
                assert(bnd(v, n as int, 2) == bnd(v, n as int, 1));
                assert(views_of(fld1@) =~= Seq::<Seq<char>>::empty());
            }
        }
        assert forall|w: FormatView, m: int|
            trec_hyp(bytes@, w, m, n as int, pos as int) implies (cur2 as int == 8 + fields_enc(
            w,
            0,
            2,
        ).len() && m >= cur2 as int) by {
            lemma_trunc_window(bytes@, w, m, 1);
            assert(field_enc(w, 1) == mp_str_list(w.exceptions));
                assert(bounded_str_list(w.exceptions));
            if m < 8 + fields_enc(w, 0, 2).len() {

                assert(false);
            }
        }
    }
        proof {
        reveal_with_fuel(fields_pos, 1);
        assert(fields_pos(bytes@, n as int, pos as int, 0) == fields_pos(
            bytes@,
            n as int,
            cur2 as int,
            2,
        ));
    }
let (fld2, cur3) = match read_str_list_field(bytes, cur2, 2, n) {
        Ok(x) => x,
        Err(e) => {
            proof {
                assert forall|v: FormatView, rest: Seq<u8>|
                    !rec_hyp(bytes@, v, n as int, rest, pos as int) by {
                    if rec_hyp(bytes@, v, n as int, rest, pos as int) {
                        if 2 < min17(n as int) {
                            lemma_field_window(bytes@, v, n as int, rest, 2);
                            assert(field_enc(v, 2) == mp_str_list(v.importants));
                assert(bounded_str_list(v.importants));
                            assert(false);
                        } else {
                            assert(false);
                        }
                    }
                }
            }
            proof {
                reveal_with_fuel(fields_pos, 1);
                assert(fields_pos(bytes@, n as int, cur2 as int, 2) is None);
                assert(fields_pos(bytes@, n as int, pos as int, 0) is None);
            }
            return Err(e);
        }
    };
    proof {
        assert forall|v: FormatView, rest: Seq<u8>|
            rec_hyp(bytes@, v, n as int, rest, pos as int) implies (views_of(fld2@) == (if 2 < min17(n as int) { v.importants } else { Seq::<Seq<char>>::empty() })
            && cur3 as int == bnd(v, n as int, 3)) by {
            if 2 < min17(n as int) {
                lemma_field_window(bytes@, v, n as int, rest, 2);
                assert(field_enc(v, 2) == mp_str_list(v.importants));
                assert(bounded_str_list(v.importants));
            } else {
                assert(bnd(v, n as int, 3) == bnd(v, n as int, 2));
                assert(views_of(fld2@) =~= Seq::<Seq<char>>::empty());
            }
        }
        assert forall|w: FormatView, m: int|
            trec_hyp(bytes@, w, m, n as int, pos as int) implies (cur3 as int == 8 + fields_enc(
            w,
            0,
            3,
        ).len() && m >= cur3 as int) by {
            lemma_trunc_window(bytes@, w, m, 2);
            assert(field_enc(w, 2) == mp_str_list(w.importants));
                assert(bounded_str_list(w.importants));
            if m < 8 + fields_enc(w, 0, 3).len() {

                assert(false);
            }
        }
    }
        proof {
        reveal_with_fuel(fields_pos, 1);
        assert(fields_pos(bytes@, n as int, pos as int, 0) == fields_pos(
            bytes@,
            n as int,
            cur3 as int,
            3,
        ));
    }
let (fld3, cur4) = match read_str_list_field(bytes, cur3, 3, n) {
        Ok(x) => x,
        Err(e) => {
            proof {
                assert forall|v: FormatView, rest: Seq<u8>|
                    !rec_hyp(bytes@, v, n as int, rest, pos as int) by {
                    if rec_hyp(bytes@, v, n as int, rest, pos as int) {
                        if 3 < min17(n as int) {
                            lemma_field_window(bytes@, v, n as int, rest, 3);
                            assert(field_enc(v, 3) == mp_str_list(v.redirects));
                assert(bounded_str_list(v.redirects));
                            assert(false);
                        } else {
                            assert(false);
                        }
                    }
                }
            }
            proof {
                reveal_with_fuel(fields_pos, 1);
                assert(fields_pos(bytes@, n as int, cur3 as int, 3) is None);
                assert(fields_pos(bytes@, n as int, pos as int, 0) is None);
            }
            return Err(e);
        }
    };
    proof {
        assert forall|v: FormatView, rest: Seq<u8>|
            rec_hyp(bytes@, v, n as int, rest, pos as int) implies (views_of(fld3@) == (if 3 < min17(n as int) { v.redirects } else { Seq::<Seq<char>>::empty() })
            && cur4 as int == bnd(v, n as int, 4)) by {
            if 3 < min17(n as int) {
                lemma_field_window(bytes@, v, n as int, rest, 3);
                assert(field_enc(v, 3) == mp_str_list(v.redirects));
                assert(bounded_str_list(v.redirects));
            } else {
                assert(bnd(v, n as int, 4) == bnd(v, n as int, 3));
                assert(views_of(fld3@) =~= Seq::<Seq<char>>::empty());
            }
        }
        assert forall|w: FormatView, m: int|
            trec_hyp(bytes@, w, m, n as int, pos as int) implies (cur4 as int == 8 + fields_enc(
            w,
            0,
            4,
        ).len() && m >= cur4 as int) by {
            lemma_trunc_window(bytes@, w, m, 3);
            assert(field_enc(w, 3) == mp_str_list(w.redirects));
                assert(bounded_str_list(w.redirects));
            if m < 8 + fields_enc(w, 0, 4).len() {

                assert(false);
            }
        }
    }
        proof {
        reveal_with_fuel(fields_pos, 1);
        assert(fields_pos(bytes@, n as int, pos as int, 0) == fields_pos(
            bytes@,
            n as int,
            cur4 as int,
            4,
        ));
    }
let (fld4, cur5) = match read_str_list_field(bytes, cur4, 4, n) {
        Ok(x) => x,
        Err(e) => {
            proof {
                assert forall|v: FormatView, rest: Seq<u8>|
                    !rec_hyp(bytes@, v, n as int, rest, pos as int) by {
                    if rec_hyp(bytes@, v, n as int, rest, pos as int) {
                        if 4 < min17(n as int) {
                            lemma_field_window(bytes@, v, n as int, rest, 4);
                            assert(field_enc(v, 4) == mp_str_list(v.filters_tagged));
                assert(bounded_str_list(v.filters_tagged));
                            assert(false);
                        } else {
                            assert(false);
                        }
                    }
                }
            }
            proof {
                reveal_with_fuel(fields_pos, 1);
                assert(fields_pos(bytes@, n as int, cur4 as int, 4) is None);
                assert(fields_pos(bytes@, n as int, pos as int, 0) is None);
            }
            return Err(e);
        }
    };
    proof {
        assert forall|v: FormatView, rest: Seq<u8>|
            rec_hyp(bytes@, v, n as int, rest, pos as int) implies (views_of(fld4@) == (if 4 < min17(n as int) { v.filters_tagged } else { Seq::<Seq<char>>::empty() })
            && cur5 as int == bnd(v, n as int, 5)) by {
            if 4 < min17(n as int) {
                lemma_field_window(bytes@, v, n as int, rest, 4);
                assert(field_enc(v, 4) == mp_str_list(v.filters_tagged));
                assert(bounded_str_list(v.filters_tagged));
            } else {
                assert(bnd(v, n as int, 5) == bnd(v, n as int, 4));
                assert(views_of(fld4@) =~= Seq::<Seq<char>>::empty());
            }
        }
        assert forall|w: FormatView, m: int|
            trec_hyp(bytes@, w, m, n as int, pos as int) implies (cur5 as int == 8 + fields_enc(
            w,
            0,
            5,
        ).len() && m >= cur5 as int) by {
            lemma_trunc_window(bytes@, w, m, 4);
            assert(field_enc(w, 4) == mp_str_list(w.filters_tagged));
                assert(bounded_str_list(w.filters_tagged));
            if m < 8 + fields_enc(w, 0, 5).len() {

                assert(false);
            }
        }
    }
        proof {
        reveal_with_fuel(fields_pos, 1);
        assert(fields_pos(bytes@, n as int, pos as int, 0) == fields_pos(
            bytes@,
            n as int,
            cur5 as int,
            5,
        ));
    }
let (fld5, cur6) = match read_str_list_field(bytes, cur5, 5, n) {
        Ok(x) => x,
        Err(e) => {
            proof {
                assert forall|v: FormatView, rest: Seq<u8>|
                    !rec_hyp(bytes@, v, n as int, rest, pos as int) by {
                    if rec_hyp(bytes@, v, n as int, rest, pos as int) {
                        if 5 < min17(n as int) {
                            lemma_field_window(bytes@, v, n as int, rest, 5);
                            assert(field_enc(v, 5) == mp_str_list(v.filters));
                assert(bounded_str_list(v.filters));
                            assert(false);
                        } else {
                            assert(false);
                        }
                    }
                }
            }
            proof {
                reveal_with_fuel(fields_pos, 1);
                assert(fields_pos(bytes@, n as int, cur5 as int, 5) is None);
                assert(fields_pos(bytes@, n as int, pos as int, 0) is None);
            }
            return Err(e);
        }
    };
    proof {
        assert forall|v: FormatView, rest: Seq<u8>|
            rec_hyp(bytes@, v, n as int, rest, pos as int) implies (views_of(fld5@) == (if 5 < min17(n as int) { v.filters } else { Seq::<Seq<char>>::empty() })
            && cur6 as int == bnd(v, n as int, 6)) by {
            if 5 < min17(n as int) {
                lemma_field_window(bytes@, v, n as int, rest, 5);
                assert(field_enc(v, 5) == mp_str_list(v.filters));
                assert(bounded_str_list(v.filters));
            } else {
                assert(bnd(v, n as int, 6) == bnd(v, n as int, 5));
                assert(views_of(fld5@) =~= Seq::<Seq<char>>::empty());
            }
        }
        assert forall|w: FormatView, m: int|
            trec_hyp(bytes@, w, m, n as int, pos as int) implies (cur6 as int == 8 + fields_enc(
            w,
            0,
            6,
        ).len() && m >= cur6 as int) by {
            lemma_trunc_window(bytes@, w, m, 5);
            assert(field_enc(w, 5) == mp_str_list(w.filters));
                assert(bounded_str_list(w.filters));
            if m < 8 + fields_enc(w, 0, 6).len() {

                assert(false);
            }
        }
    }
        proof {
        reveal_with_fuel(fields_pos, 1);
        assert(fields_pos(bytes@, n as int, pos as int, 0) == fields_pos(
            bytes@,
            n as int,
            cur6 as int,
            6,
        ));
    }
let (fld6, cur7) = match read_str_list_field(bytes, cur6, 6, n) {
        Ok(x) => x,
        Err(e) => {
            proof {
                assert forall|v: FormatView, rest: Seq<u8>|
                    !rec_hyp(bytes@, v, n as int, rest, pos as int) by {
                    if rec_hyp(bytes@, v, n as int, rest, pos as int) {
                        if 6 < min17(n as int) {
                            lemma_field_window(bytes@, v, n as int, rest, 6);
                            assert(field_enc(v, 6) == mp_str_list(v.generic_hide));
                assert(bounded_str_list(v.generic_hide));
                            assert(false);
                        } else {
                            assert(false);
                        }
                    }
                }
            }
            proof {
                reveal_with_fuel(fields_pos, 1);
                assert(fields_pos(bytes@, n as int, cur6 as int, 6) is None);
                assert(fields_pos(bytes@, n as int, pos as int, 0) is None);
            }
            return Err(e);
        }
    };
    proof {
        assert forall|v: FormatView, rest: Seq<u8>|
            rec_hyp(bytes@, v, n as int, rest, pos as int) implies (views_of(fld6@) == (if 6 < min17(n as int) { v.generic_hide } else { Seq::<Seq<char>>::empty() })
            && cur7 as int == bnd(v, n as int, 7)) by {
            if 6 < min17(n as int) {
                lemma_field_window(bytes@, v, n as int, rest, 6);
                assert(field_enc(v, 6) == mp_str_list(v.generic_hide));
                assert(bounded_str_list(v.generic_hide));
            } else {
                assert(bnd(v, n as int, 7) == bnd(v, n as int, 6));
                assert(views_of(fld6@) =~= Seq::<Seq<char>>::empty());
            }
        }
        assert forall|w: FormatView, m: int|
            trec_hyp(bytes@, w, m, n as int, pos as int) implies (cur7 as int == 8 + fields_enc(
            w,
            0,
            7,
        ).len() && m >= cur7 as int) by {
            lemma_trunc_window(bytes@, w, m, 6);
            assert(field_enc(w, 6) == mp_str_list(w.generic_hide));
                assert(bounded_str_list(w.generic_hide));
            if m < 8 + fields_enc(w, 0, 7).len() {

                assert(false);
            }
        }
    }
        proof {
        reveal_with_fuel(fields_pos, 1);
        assert(fields_pos(bytes@, n as int, pos as int, 0) == fields_pos(
            bytes@,
            n as int,
            cur7 as int,
            7,
        ));
    }
let (fld7, cur8) = match read_str_list_field(bytes, cur7, 7, n) {
        Ok(x) => x,
        Err(e) => {
            proof {
                assert forall|v: FormatView, rest: Seq<u8>|
                    !rec_hyp(bytes@, v, n as int, rest, pos as int) by {
                    if rec_hyp(bytes@, v, n as int, rest, pos as int) {
                        if 7 < min17(n as int) {
                            lemma_field_window(bytes@, v, n as int, rest, 7);
                            assert(field_enc(v, 7) == mp_str_list(v.tagged_filters_all));
                assert(bounded_str_list(v.tagged_filters_all));
                            assert(false);
                        } else {
                            assert(false);
                        }
                    }
                }
            }
            proof {
                reveal_with_fuel(fields_pos, 1);
                assert(fields_pos(bytes@, n as int, cur7 as int, 7) is None);
                assert(fields_pos(bytes@, n as int, pos as int, 0) is None);
            }
            return Err(e);
        }
    };
    proof {
        assert forall|v: FormatView, rest: Seq<u8>|
            rec_hyp(bytes@, v, n as int, rest, pos as int) implies (views_of(fld7@) == (if 7 < min17(n as int) { v.tagged_filters_all } else { Seq::<Seq<char>>::empty() })
            && cur8 as int == bnd(v, n as int, 8)) by {
            if 7 < min17(n as int) {
                lemma_field_window(bytes@, v, n as int, rest, 7);
                assert(field_enc(v, 7) == mp_str_list(v.tagged_filters_all));
                assert(bounded_str_list(v.tagged_filters_all));
            } else {
                assert(bnd(v, n as int, 8) == bnd(v, n as int, 7));
                assert(views_of(fld7@) =~= Seq::<Seq<char>>::empty());
            }
        }
        assert forall|w: FormatView, m: int|
            trec_hyp(bytes@, w, m, n as int, pos as int) implies (cur8 as int == 8 + fields_enc(
            w,
            0,
            8,
        ).len() && m >= cur8 as int) by {
            lemma_trunc_window(bytes@, w, m, 7);
            assert(field_enc(w, 7) == mp_str_list(w.tagged_filters_all));
                assert(bounded_str_list(w.tagged_filters_all));
            if m < 8 + fields_enc(w, 0, 8).len() {

                assert(false);
            }
        }
    }
        proof {
        reveal_with_fuel(fields_pos, 1);
        assert(fields_pos(bytes@, n as int, pos as int, 0) == fields_pos(
            bytes@,
            n as int,
            cur8 as int,
            8,
        ));
    }
let (fld8, cur9) = match read_bool_field(bytes, cur8, 8, n) {
        Ok(x) => x,
        Err(e) => {
            proof {
                assert forall|v: FormatView, rest: Seq<u8>|
                    !rec_hyp(bytes@, v, n as int, rest, pos as int) by {
                    if rec_hyp(bytes@, v, n as int, rest, pos as int) {
                        if 8 < min17(n as int) {
                            lemma_field_window(bytes@, v, n as int, rest, 8);
                            assert(field_enc(v, 8) == mp_bool(v.enable_optimizations));
                            assert(false);
                        } else {
                            assert(false);
                        }
                    }
                }
            }
            proof {
                reveal_with_fuel(fields_pos, 1);
                assert(fields_pos(bytes@, n as int, cur8 as int, 8) is None);
                assert(fields_pos(bytes@, n as int, pos as int, 0) is None);
            }
            return Err(e);
        }
    };
    proof {
        assert forall|v: FormatView, rest: Seq<u8>|
            rec_hyp(bytes@, v, n as int, rest, pos as int) implies (fld8 == (if 8 < min17(n as int) { v.enable_optimizations } else { false })
            && cur9 as int == bnd(v, n as int, 9)) by {
            if 8 < min17(n as int) {
                lemma_field_window(bytes@, v, n as int, rest, 8);
                assert(field_enc(v, 8) == mp_bool(v.enable_optimizations));
            } else {
                assert(bnd(v, n as int, 9) == bnd(v, n as int, 8));

            }
        }
        assert forall|w: FormatView, m: int|
            trec_hyp(bytes@, w, m, n as int, pos as int) implies (cur9 as int == 8 + fields_enc(
            w,
            0,
            9,
        ).len() && m >= cur9 as int) by {
            lemma_trunc_window(bytes@, w, m, 8);
            assert(field_enc(w, 8) == mp_bool(w.enable_optimizations));
            if m < 8 + fields_enc(w, 0, 9).len() {
                assert(cur8 as int == m);
                assert(cur8 as int == bytes@.len());
                assert(false);
            }
        }
    }
        proof {
        reveal_with_fuel(fields_pos, 1);
        assert(fields_pos(bytes@, n as int, pos as int, 0) == fields_pos(
            bytes@,
            n as int,
            cur9 as int,
            9,
        ));
    }
let (fld9, cur10) = match read_pair_list_field(bytes, cur9, 9, n) {
        Ok(x) => x,
        Err(e) => {
            proof {
                assert forall|v: FormatView, rest: Seq<u8>|
                    !rec_hyp(bytes@, v, n as int, rest, pos as int) by {
                    if rec_hyp(bytes@, v, n as int, rest, pos as int) {
                        if 9 < min17(n as int) {
                            lemma_field_window(bytes@, v, n as int, rest, 9);
                            assert(field_enc(v, 9) == mp_pair_list(v.resources));
                assert(bounded_pair_list(v.resources));
                            assert(false);
                        } else {
                            assert(false);
                        }
                    }
                }
            }
            proof {
                reveal_with_fuel(fields_pos, 1);
                assert(fields_pos(bytes@, n as int, cur9 as int, 9) is None);
                assert(fields_pos(bytes@, n as int, pos as int, 0) is None);
            }
            return Err(e);
        }
    };
    proof {
        assert forall|v: FormatView, rest: Seq<u8>|
            rec_hyp(bytes@, v, n as int, rest, pos as int) implies (pair_views_of(fld9@) == (if 9 < min17(n as int) { v.resources } else { Seq::<(Seq<char>, Seq<char>)>::empty() })
            && cur10 as int == bnd(v, n as int, 10)) by {
            if 9 < min17(n as int) {
                lemma_field_window(bytes@, v, n as int, rest, 9);
                assert(field_enc(v, 9) == mp_pair_list(v.resources));
                assert(bounded_pair_list(v.resources));
            } else {
                assert(bnd(v, n as int, 10) == bnd(v, n as int, 9));
                assert(pair_views_of(fld9@) =~= Seq::<(Seq<char>, Seq<char>)>::empty());
            }
        }
        assert forall|w: FormatView, m: int|
            trec_hyp(bytes@, w, m, n as int, pos as int) implies (cur10 as int == 8 + fields_enc(
            w,
            0,
            10,
        ).len() && m >= cur10 as int) by {
            lemma_trunc_window(bytes@, w, m, 9);
            assert(field_enc(w, 9) == mp_pair_list(w.resources));
                assert(bounded_pair_list(w.resources));
            if m < 8 + fields_enc(w, 0, 10).len() {

                assert(false);
            }
        }
    }
        proof {
        reveal_with_fuel(fields_pos, 1);
        assert(fields_pos(bytes@, n as int, pos as int, 0) == fields_pos(
            bytes@,
            n as int,
            cur10 as int,
            10,
        ));
    }
let (fld10, cur11) = match read_str_list_field(bytes, cur10, 10, n) {
        Ok(x) => x,
        Err(e) => {
            proof {
                assert forall|v: FormatView, rest: Seq<u8>|
                    !rec_hyp(bytes@, v, n as int, rest, pos as int) by {
                    if rec_hyp(bytes@, v, n as int, rest, pos as int) {
                        if 10 < min17(n as int) {
                            lemma_field_window(bytes@, v, n as int, rest, 10);
                            assert(field_enc(v, 10) == mp_str_list(v.simple_class_rules));
                assert(bounded_str_list(v.simple_class_rules));
                            assert(false);
                        } else {
                            assert(false);
                        }
                    }
                }
            }
            proof {
                reveal_with_fuel(fields_pos, 1);
                assert(fields_pos(bytes@, n as int, cur10 as int, 10) is None);
                assert(fields_pos(bytes@, n as int, pos as int, 0) is None);
            }
            return Err(e);
        }
    };
    proof {
        assert forall|v: FormatView, rest: Seq<u8>|
            rec_hyp(bytes@, v, n as int, rest, pos as int) implies (views_of(fld10@) == (if 10 < min17(n as int) { v.simple_class_rules } else { Seq::<Seq<char>>::empty() })
            && cur11 as int == bnd(v, n as int, 11)) by {
            if 10 < min17(n as int) {
                lemma_field_window(bytes@, v, n as int, rest, 10);
                assert(field_enc(v, 10) == mp_str_list(v.simple_class_rules));
                assert(bounded_str_list(v.simple_class_rules));
            } else {
                assert(bnd(v, n as int, 11) == bnd(v, n as int, 10));
                assert(views_of(fld10@) =~= Seq::<Seq<char>>::empty());
            }
        }
        assert forall|w: FormatView, m: int|
            trec_hyp(bytes@, w, m, n as int, pos as int) implies (cur11 as int == 8 + fields_enc(
            w,
            0,
            11,
        ).len() && m >= cur11 as int) by {
            lemma_trunc_window(bytes@, w, m, 10);
            assert(field_enc(w, 10) == mp_str_list(w.simple_class_rules));
                assert(bounded_str_list(w.simple_class_rules));
            if m < 8 + fields_enc(w, 0, 11).len() {

                assert(false);
            }
        }
    }
        proof {
        reveal_with_fuel(fields_pos, 1);
        assert(fields_pos(bytes@, n as int, pos as int, 0) == fields_pos(
            bytes@,
            n as int,
            cur11 as int,
            11,
        ));
    }
let (fld11, cur12) = match read_str_list_field(bytes, cur11, 11, n) {
        Ok(x) => x,
        Err(e) => {
            proof {
                assert forall|v: FormatView, rest: Seq<u8>|
                    !rec_hyp(bytes@, v, n as int, rest, pos as int) by {
                    if rec_hyp(bytes@, v, n as int, rest, pos as int) {
                        if 11 < min17(n as int) {
                            lemma_field_window(bytes@, v, n as int, rest, 11);
                            assert(field_enc(v, 11) == mp_str_list(v.simple_id_rules));
                assert(bounded_str_list(v.simple_id_rules));
                            assert(false);
                        } else {
                            assert(false);
                        }
                    }
                }
            }
            proof {
                reveal_with_fuel(fields_pos, 1);
                assert(fields_pos(bytes@, n as int, cur11 as int, 11) is None);
                assert(fields_pos(bytes@, n as int, pos as int, 0) is None);
            }
            return Err(e);
        }
    };
    proof {
        assert forall|v: FormatView, rest: Seq<u8>|
            rec_hyp(bytes@, v, n as int, rest, pos as int) implies (views_of(fld11@) == (if 11 < min17(n as int) { v.simple_id_rules } else { Seq::<Seq<char>>::empty() })
            && cur12 as int == bnd(v, n as int, 12)) by {
            if 11 < min17(n as int) {
                lemma_field_window(bytes@, v, n as int, rest, 11);
                assert(field_enc(v, 11) == mp_str_list(v.simple_id_rules));
                assert(bounded_str_list(v.simple_id_rules));
            } else {
                assert(bnd(v, n as int, 12) == bnd(v, n as int, 11));
                assert(views_of(fld11@) =~= Seq::<Seq<char>>::empty());
            }
        }
        assert forall|w: FormatView, m: int|
            trec_hyp(bytes@, w, m, n as int, pos as int) implies (cur12 as int == 8 + fields_enc(
            w,
            0,
            12,
        ).len() && m >= cur12 as int) by {
            lemma_trunc_window(bytes@, w, m, 11);
            assert(field_enc(w, 11) == mp_str_list(w.simple_id_rules));
                assert(bounded_str_list(w.simple_id_rules));
            if m < 8 + fields_enc(w, 0, 12).len() {

                assert(false);
            }
        }
    }
        proof {
        reveal_with_fuel(fields_pos, 1);
        assert(fields_pos(bytes@, n as int, pos as int, 0) == fields_pos(
            bytes@,
            n as int,
            cur12 as int,
            12,
        ));
    }
let (fld12, cur13) = match read_nested_list_field(bytes, cur12, 12, n) {
        Ok(x) => x,
        Err(e) => {
            proof {
                assert forall|v: FormatView, rest: Seq<u8>|
                    !rec_hyp(bytes@, v, n as int, rest, pos as int) by {
                    if rec_hyp(bytes@, v, n as int, rest, pos as int) {
                        if 12 < min17(n as int) {
                            lemma_field_window(bytes@, v, n as int, rest, 12);
                            assert(field_enc(v, 12) == mp_nested_list(v.complex_class_rules));
                assert(bounded_nested_list(v.complex_class_rules));
                            assert(false);
                        } else {
                            assert(false);
                        }
                    }
                }
            }
            proof {
                reveal_with_fuel(fields_pos, 1);
                assert(fields_pos(bytes@, n as int, cur12 as int, 12) is None);
                assert(fields_pos(bytes@, n as int, pos as int, 0) is None);
            }
            return Err(e);
        }
    };
    proof {
        assert forall|v: FormatView, rest: Seq<u8>|
            rec_hyp(bytes@, v, n as int, rest, pos as int) implies (nested_views_of(fld12@) == (if 12 < min17(n as int) { v.complex_class_rules } else { Seq::<(Seq<char>, Seq<Seq<char>>)>::empty() })
            && cur13 as int == bnd(v, n as int, 13)) by {
            if 12 < min17(n as int) {
                lemma_field_window(bytes@, v, n as int, rest, 12);
                assert(field_enc(v, 12) == mp_nested_list(v.complex_class_rules));
                assert(bounded_nested_list(v.complex_class_rules));
            } else {
                assert(bnd(v, n as int, 13) == bnd(v, n as int, 12));
                assert(nested_views_of(fld12@) =~= Seq::<(Seq<char>, Seq<Seq<char>>)>::empty());
            }
        }
        assert forall|w: FormatView, m: int|
            trec_hyp(bytes@, w, m, n as int, pos as int) implies (cur13 as int == 8 + fields_enc(
            w,
            0,
            13,
        ).len() && m >= cur13 as int) by {
            lemma_trunc_window(bytes@, w, m, 12);
            assert(field_enc(w, 12) == mp_nested_list(w.complex_class_rules));
                assert(bounded_nested_list(w.complex_class_rules));
            if m < 8 + fields_enc(w, 0, 13).len() {

                assert(false);
            }
        }
    }
        proof {
        reveal_with_fuel(fields_pos, 1);
        assert(fields_pos(bytes@, n as int, pos as int, 0) == fields_pos(
            bytes@,
            n as int,
            cur13 as int,
            13,
        ));
    }
let (fld13, cur14) = match read_nested_list_field(bytes, cur13, 13, n) {
        Ok(x) => x,
        Err(e) => {
            proof {
                assert forall|v: FormatView, rest: Seq<u8>|
                    !rec_hyp(bytes@, v, n as int, rest, pos as int) by {
                    if rec_hyp(bytes@, v, n as int, rest, pos as int) {
                        if 13 < min17(n as int) {
                            lemma_field_window(bytes@, v, n as int, rest, 13);
                            assert(field_enc(v, 13) == mp_nested_list(v.complex_id_rules));
                assert(bounded_nested_list(v.complex_id_rules));
                            assert(false);
                        } else {
                            assert(false);
                        }
                    }
                }
            }
            proof {
                reveal_with_fuel(fields_pos, 1);
                assert(fields_pos(bytes@, n as int, cur13 as int, 13) is None);
                assert(fields_pos(bytes@, n as int, pos as int, 0) is None);
            }
            return Err(e);
        }
    };
    proof {
        assert forall|v: FormatView, rest: Seq<u8>|
            rec_hyp(bytes@, v, n as int, rest, pos as int) implies (nested_views_of(fld13@) == (if 13 < min17(n as int) { v.complex_id_rules } else { Seq::<(Seq<char>, Seq<Seq<char>>)>::empty() })
            && cur14 as int == bnd(v, n as int, 14)) by {
            if 13 < min17(n as int) {
                lemma_field_window(bytes@, v, n as int, rest, 13);
                assert(field_enc(v, 13) == mp_nested_list(v.complex_id_rules));
                assert(bounded_nested_list(v.complex_id_rules));
            } else {
                assert(bnd(v, n as int, 14) == bnd(v, n as int, 13));
                assert(nested_views_of(fld13@) =~= Seq::<(Seq<char>, Seq<Seq<char>>)>::empty());
            }
        }
        assert forall|w: FormatView, m: int|
            trec_hyp(bytes@, w, m, n as int, pos as int) implies (cur14 as int == 8 + fields_enc(
            w,
            0,
            14,
        ).len() && m >= cur14 as int) by {
            lemma_trunc_window(bytes@, w, m, 13);
            assert(field_enc(w, 13) == mp_nested_list(w.complex_id_rules));
                assert(bounded_nested_list(w.complex_id_rules));
            if m < 8 + fields_enc(w, 0, 14).len() {

                assert(false);
            }
        }
    }
        proof {
        reveal_with_fuel(fields_pos, 1);
        assert(fields_pos(bytes@, n as int, pos as int, 0) == fields_pos(
            bytes@,
            n as int,
            cur14 as int,
            14,
        ));
    }
let (fld14, cur15) = match read_nested_list_field(bytes, cur14, 14, n) {
        Ok(x) => x,
        Err(e) => {
            proof {
                assert forall|v: FormatView, rest: Seq<u8>|
                    !rec_hyp(bytes@, v, n as int, rest, pos as int) by {
                    if rec_hyp(bytes@, v, n as int, rest, pos as int) {
                        if 14 < min17(n as int) {
                            lemma_field_window(bytes@, v, n as int, rest, 14);
                            assert(field_enc(v, 14) == mp_nested_list(v.specific_rules));
                assert(bounded_nested_list(v.specific_rules));
                            assert(false);
                        } else {
                            assert(false);
                        }
                    }
                }
            }
            proof {
                reveal_with_fuel(fields_pos, 1);
                assert(fields_pos(bytes@, n as int, cur14 as int, 14) is None);
                assert(fields_pos(bytes@, n as int, pos as int, 0) is None);
            }
            return Err(e);
        }
    };
    proof {
        assert forall|v: FormatView, rest: Seq<u8>|
            rec_hyp(bytes@, v, n as int, rest, pos as int) implies (nested_views_of(fld14@) == (if 14 < min17(n as int) { v.specific_rules } else { Seq::<(Seq<char>, Seq<Seq<char>>)>::empty() })
            && cur15 as int == bnd(v, n as int, 15)) by {
            if 14 < min17(n as int) {
                lemma_field_window(bytes@, v, n as int, rest, 14);
                assert(field_enc(v, 14) == mp_nested_list(v.specific_rules));
                assert(bounded_nested_list(v.specific_rules));
            } else {
                assert(bnd(v, n as int, 15) == bnd(v, n as int, 14));
                assert(nested_views_of(fld14@) =~= Seq::<(Seq<char>, Seq<Seq<char>>)>::empty());
            }
        }
        assert forall|w: FormatView, m: int|
            trec_hyp(bytes@, w, m, n as int, pos as int) implies (cur15 as int == 8 + fields_enc(
            w,
            0,
            15,
        ).len() && m >= cur15 as int) by {
            lemma_trunc_window(bytes@, w, m, 14);
            assert(field_enc(w, 14) == mp_nested_list(w.specific_rules));
                assert(bounded_nested_list(w.specific_rules));
            if m < 8 + fields_enc(w, 0, 15).len() {

                assert(false);
            }
        }
    }
        proof {
        reveal_with_fuel(fields_pos, 1);
        assert(fields_pos(bytes@, n as int, pos as int, 0) == fields_pos(
            bytes@,
            n as int,
            cur15 as int,
            15,
        ));
    }
let (fld15, cur16) = match read_str_list_field(bytes, cur15, 15, n) {
        Ok(x) => x,
        Err(e) => {
            proof {
                assert forall|v: FormatView, rest: Seq<u8>|
                    !rec_hyp(bytes@, v, n as int, rest, pos as int) by {
                    if rec_hyp(bytes@, v, n as int, rest, pos as int) {
                        if 15 < min17(n as int) {
                            lemma_field_window(bytes@, v, n as int, rest, 15);
                            assert(field_enc(v, 15) == mp_str_list(v.misc_generic_selectors));
                assert(bounded_str_list(v.misc_generic_selectors));
                            assert(false);
                        } else {
                            assert(false);
                        }
                    }
                }
            }
            proof {
                reveal_with_fuel(fields_pos, 1);
                assert(fields_pos(bytes@, n as int, cur15 as int, 15) is None);
                assert(fields_pos(bytes@, n as int, pos as int, 0) is None);
            }
            return Err(e);
        }
    };
    proof {
        assert forall|v: FormatView, rest: Seq<u8>|
            rec_hyp(bytes@, v, n as int, rest, pos as int) implies (views_of(fld15@) == (if 15 < min17(n as int) { v.misc_generic_selectors } else { Seq::<Seq<char>>::empty() })
            && cur16 as int == bnd(v, n as int, 16)) by {
            if 15 < min17(n as int) {
                lemma_field_window(bytes@, v, n as int, rest, 15);
                assert(field_enc(v, 15) == mp_str_list(v.misc_generic_selectors));
                assert(bounded_str_list(v.misc_generic_selectors));
            } else {
                assert(bnd(v, n as int, 16) == bnd(v, n as int, 15));
                assert(views_of(fld15@) =~= Seq::<Seq<char>>::empty());
            }
        }
        assert forall|w: FormatView, m: int|
            trec_hyp(bytes@, w, m, n as int, pos as int) implies (cur16 as int == 8 + fields_enc(
            w,
            0,
            16,
        ).len() && m >= cur16 as int) by {
            lemma_trunc_window(bytes@, w, m, 15);
            assert(field_enc(w, 15) == mp_str_list(w.misc_generic_selectors));
                assert(bounded_str_list(w.misc_generic_selectors));
            if m < 8 + fields_enc(w, 0, 16).len() {

                assert(false);
            }
        }
    }
        proof {
        reveal_with_fuel(fields_pos, 1);
        assert(fields_pos(bytes@, n as int, pos as int, 0) == fields_pos(
            bytes@,
            n as int,
            cur16 as int,
            16,
        ));
    }
let (fld16, cur17) = match read_pair_list_field(bytes, cur16, 16, n) {
        Ok(x) => x,
        Err(e) => {
            proof {
                assert forall|v: FormatView, rest: Seq<u8>|
                    !rec_hyp(bytes@, v, n as int, rest, pos as int) by {
                    if rec_hyp(bytes@, v, n as int, rest, pos as int) {
                        if 16 < min17(n as int) {
                            lemma_field_window(bytes@, v, n as int, rest, 16);
                            assert(field_enc(v, 16) == mp_pair_list(v.scriptlets));
                assert(bounded_pair_list(v.scriptlets));
                            assert(false);
                        } else {
                            assert(false);
                        }
                    }
                }
            }
            proof {
                reveal_with_fuel(fields_pos, 1);
                assert(fields_pos(bytes@, n as int, cur16 as int, 16) is None);
                assert(fields_pos(bytes@, n as int, pos as int, 0) is None);
            }
            return Err(e);
        }
    };
    proof {
        assert forall|v: FormatView, rest: Seq<u8>|
            rec_hyp(bytes@, v, n as int, rest, pos as int) implies (pair_views_of(fld16@) == (if 16 < min17(n as int) { v.scriptlets } else { Seq::<(Seq<char>, Seq<char>)>::empty() })
            && cur17 as int == bnd(v, n as int, 17)) by {
            if 16 < min17(n as int) {
                lemma_field_window(bytes@, v, n as int, rest, 16);
                assert(field_enc(v, 16) == mp_pair_list(v.scriptlets));
                assert(bounded_pair_list(v.scriptlets));
            } else {
                assert(bnd(v, n as int, 17) == bnd(v, n as int, 16));
                assert(pair_views_of(fld16@) =~= Seq::<(Seq<char>, Seq<char>)>::empty());
            }
        }
        assert forall|w: FormatView, m: int|
            trec_hyp(bytes@, w, m, n as int, pos as int) implies (cur17 as int == 8 + fields_enc(
            w,
            0,
            17,
        ).len() && m >= cur17 as int) by {
            lemma_trunc_window(bytes@, w, m, 16);
            assert(field_enc(w, 16) == mp_pair_list(w.scriptlets));
                assert(bounded_pair_list(w.scriptlets));
            if m < 8 + fields_enc(w, 0, 17).len() {

                assert(false);
            }
        }
    }
    proof {
        reveal_with_fuel(fields_pos, 1);
        assert(fields_pos(bytes@, n as int, pos as int, 0) == fields_pos(
            bytes@,
            n as int,
            cur17 as int,
            17,
        ));
    }
    let fmt = DeserializeFormat {
        csp: NetworkFilterList { filters: fld0 },
        exceptions: NetworkFilterList { filters: fld1 },
        importants: NetworkFilterList { filters: fld2 },
        redirects: NetworkFilterList { filters: fld3 },
        filters_tagged: NetworkFilterList { filters: fld4 },
        filters: NetworkFilterList { filters: fld5 },
        generic_hide: NetworkFilterList { filters: fld6 },
        tagged_filters_all: fld7,
        enable_optimizations: fld8,
        resources: RedirectResourceStorage { entries: fld9 },
        simple_class_rules: StringSet { elems: fld10 },
        simple_id_rules: StringSet { elems: fld11 },
        complex_class_rules: StringMultiMap { entries: fld12 },
        complex_id_rules: StringMultiMap { entries: fld13 },
        specific_rules: HostnameRuleDb { entries: fld14 },
        misc_generic_selectors: StringSet { elems: fld15 },
        scriptlets: ScriptletResourceStorage { entries: fld16 },
    };
    proof {
        assert forall|v: FormatView, rest: Seq<u8>|
            rec_hyp(bytes@, v, n as int, rest, pos as int) implies fmt@ == defaulted(
            v,
            min17(n as int),
        ) by {
            assert(fmt@ =~= defaulted(v, min17(n as int)));
        }
        assert forall|w: FormatView, m: int|
            !trec_hyp(bytes@, w, m, n as int, pos as int) by {
            if trec_hyp(bytes@, w, m, n as int, pos as int) {
                assert(blob_header().len() == 5 && array_header(17).len() == 3);
                assert(full_wire(w).len() == 8 + fields_enc(w, 0, 17).len());
                assert(false);
            }
        }
        assert(fields_pos(bytes@, n as int, cur17 as int, 17) == Some(cur17 as int)) by {
            reveal_with_fuel(fields_pos, 1);
        }
    }
    Ok(fmt)
}

/// The input is framed correctly: it starts with the magic constant and a
/// supported version byte.
pub open spec fn framing_ok(bytes: Seq<u8>) -> bool {
    bytes.len() >= 5 && bytes.subrange(0, 5) == blob_header()
}

/// A truncated record still carries valid framing, and its array header parses
/// exactly when the cut lies past the header.
proof fn lemma_trunc_header(bytes: Seq<u8>, w: FormatView, m: int)
    requires
        trunc_hyp(bytes, w, m),
    ensures
        framing_ok(bytes),
        m >= 8 ==> parse_array_header(bytes.skip(5)) == Some((17int, 3int)),
        m < 8 ==> parse_array_header(bytes.skip(5)) is None,
        bytes.len() == m,
{
    assert(array_header(17) =~= seq![0xdcu8, 0x00u8, 0x11u8]);
    let full = full_wire(w);
    assert(full.len() >= 8);
    assert(bytes.subrange(0, 5) =~= blob_header());
    assert(framing_ok(bytes));
    assert(bytes.skip(5) =~= full.subrange(5, m));
    assert(full[5] == 0xdcu8 && full[6] == 0x00u8 && full[7] == 0x11u8);
    if m >= 8 {
        let s = bytes.skip(5);
        assert(s[0] == 0xdcu8 && s[1] == 0x00u8 && s[2] == 0x11u8);
        assert(s.len() >= 3);
        assert(s[1] * 256 + s[2] == 17);
    } else {
        let s = bytes.skip(5);
        assert(s.len() == m - 5 < 3);
        if m > 5 {
            assert(s[0] == 0xdcu8);
        }
    }
}

impl DeserializeFormat {
    /// Parses a serialized blob back into owned engine data. The framing is
    /// checked first: input that does not begin with the magic constant and a
    /// supported version byte is rejected as unrecognized before any payload
    /// decoding. A well-formed record of any schema width decodes, with fields
    /// this reader does not know ignored and fields the writer did not know
    /// defaulted; a record cut off anywhere before its end is rejected.
    pub fn deserialize(serialized: &[u8]) -> (r: Result<DeserializeFormat, DeserializationError>)
        ensures
            !framing_ok(serialized@) ==> r is Err && r->Err_0
                == DeserializationError::UnrecognizedFormat,
            framing_ok(serialized@) && r is Err ==> r->Err_0
                == DeserializationError::DecodeFailed,
            framing_ok(serialized@) ==> ((r is Ok) == payload_decodes(serialized@)),
            forall|v: FormatView, n: int, rest: Seq<u8>| #[trigger]
                wire_hyp(serialized@, v, n, rest) ==> r is Ok && r->Ok_0@ == defaulted(
                    v,
                    min17(n),
                ),
            forall|v: FormatView|
                v.bounded() && serialized@ == wire_of(v) ==> r is Ok && r->Ok_0@ == canon_view(v),
            forall|w: FormatView, m: int| #[trigger]
                trunc_hyp(serialized@, w, m) ==> r is Err && r->Err_0
                    == DeserializationError::DecodeFailed,
    {
        if serialized.len() < 5 {
            proof {
                assert forall|v: FormatView, n: int, rest: Seq<u8>|
                    !wire_hyp(serialized@, v, n, rest) by {
                    if wire_hyp(serialized@, v, n, rest) {
                        assert(serialized@.len() >= blob_header().len() + array_header(n).len());
                    }
                }
                assert forall|w: FormatView, m: int| !trunc_hyp(serialized@, w, m) by {
                    if trunc_hyp(serialized@, w, m) {
                        assert(serialized@.len() == m);
                    }
                }
                assert forall|v: FormatView| serialized@ != wire_of(v) by {
                    if serialized@ == wire_of(v) {
                        assert(serialized@.len() >= blob_header().len());
                    }
                }
            }
            return Err(DeserializationError::UnrecognizedFormat);
        }
        let good = serialized[0] == 0x46 && serialized[1] == 0x43 && serialized[2] == 0x46
            && serialized[3] == 0x30 && serialized[4] == 0x00;
        if !good {
            proof {
                assert(serialized@.subrange(0, 5) != blob_header()) by {
                    if serialized@.subrange(0, 5) == blob_header() {
                        assert(serialized@[0] == blob_header()[0]);
                        assert(serialized@[1] == blob_header()[1]);
                        assert(serialized@[2] == blob_header()[2]);
                        assert(serialized@[3] == blob_header()[3]);
                        assert(serialized@[4] == blob_header()[4]);
                    }
                }
                assert forall|v: FormatView, n: int, rest: Seq<u8>|
                    !wire_hyp(serialized@, v, n, rest) by {
                    if wire_hyp(serialized@, v, n, rest) {
                        assert(serialized@.subrange(0, 5) =~= blob_header());
                    }
                }
                assert forall|w: FormatView, m: int| !trunc_hyp(serialized@, w, m) by {
                    if trunc_hyp(serialized@, w, m) {
                        lemma_trunc_header(serialized@, w, m);
                    }
                }
                assert forall|v: FormatView| serialized@ != wire_of(v) by {
                    if serialized@ == wire_of(v) {
                        assert(serialized@.subrange(0, 5) =~= blob_header());
                    }
                }
            }
            return Err(DeserializationError::UnrecognizedFormat);
        }
        proof {
            assert(framing_ok(serialized@)) by {
                assert(serialized@.subrange(0, 5) =~= blob_header());
            }
        }
        let (n, pos) = match read_array_header(serialized, 5) {
            Ok(x) => x,
            Err(e) => {
                proof {
                    assert forall|v: FormatView, n0: int, rest: Seq<u8>|
                        !wire_hyp(serialized@, v, n0, rest) by {
                        if wire_hyp(serialized@, v, n0, rest) {
                            lemma_parse_array_header_roundtrip(
                                n0,
                                fields_enc(v, 0, min17(n0)) + rest,
                            );
                            assert(serialized@.skip(5) =~= array_header(n0) + (fields_enc(
                                v,
                                0,
                                min17(n0),
                            ) + rest));
                            assert(false);
                        }
                    }
                    assert forall|v: FormatView| !(v.bounded() && serialized@ == wire_of(v)) by {
                        if v.bounded() && serialized@ == wire_of(v) {
                            lemma_canon_bounded(v);
                            assert(serialized@ =~= rec_payload(
                                canon_view(v),
                                17,
                                Seq::<u8>::empty(),
                            ));
                            assert(wire_hyp(serialized@, canon_view(v), 17, Seq::<u8>::empty()));
                        }
                    }
                    assert(!payload_decodes(serialized@));
                }
                return Err(e);
            }
        };
        match read_record(serialized, n, pos) {
            Ok(f) => {
                proof {
                    assert forall|v: FormatView, n0: int, rest: Seq<u8>|
                        wire_hyp(serialized@, v, n0, rest) implies (f@ == defaulted(
                        v,
                        min17(n0),
                    )) by {
                        lemma_parse_array_header_roundtrip(n0, fields_enc(v, 0, min17(n0)) + rest);
                        assert(serialized@.skip(5) =~= array_header(n0) + (fields_enc(
                            v,
                            0,
                            min17(n0),
                        ) + rest));
                        assert(n as int == n0 && pos as int == 5 + array_header(n0).len());
                        assert(rec_hyp(serialized@, v, n as int, rest, pos as int));
                    }
                    assert forall|v: FormatView|
                        v.bounded() && serialized@ == wire_of(v) implies (f@ == canon_view(v)) by {
                        lemma_canon_bounded(v);
                        assert(serialized@ =~= rec_payload(canon_view(v), 17, Seq::<u8>::empty()));
                        assert(wire_hyp(serialized@, canon_view(v), 17, Seq::<u8>::empty()));
                        assert(defaulted(canon_view(v), 17) =~= canon_view(v));
                    }
                    assert forall|w: FormatView, m: int| !trunc_hyp(serialized@, w, m) by {
                        if trunc_hyp(serialized@, w, m) {
                            lemma_trunc_header(serialized@, w, m);
                            if m >= 8 {
                                assert(trec_hyp(serialized@, w, m, n as int, pos as int));
                                assert(false);
                            } else {
                                assert(false);
                            }
                        }
                    }
                    assert(payload_decodes(serialized@) == (fields_pos(
                        serialized@,
                        n as int,
                        pos as int,
                        0,
                    ) is Some));
                }
                Ok(f)
            },
            Err(e) => {
                proof {
                    assert forall|v: FormatView, n0: int, rest: Seq<u8>|
                        !wire_hyp(serialized@, v, n0, rest) by {
                        if wire_hyp(serialized@, v, n0, rest) {
                            lemma_parse_array_header_roundtrip(
                                n0,
                                fields_enc(v, 0, min17(n0)) + rest,
                            );
                            assert(serialized@.skip(5) =~= array_header(n0) + (fields_enc(
                                v,
                                0,
                                min17(n0),
                            ) + rest));
                            assert(rec_hyp(serialized@, v, n as int, rest, pos as int));
                            assert(false);
                        }
                    }
                    assert forall|v: FormatView| !(v.bounded() && serialized@ == wire_of(v)) by {
                        if v.bounded() && serialized@ == wire_of(v) {
                            lemma_canon_bounded(v);
                            assert(serialized@ =~= rec_payload(
                                canon_view(v),
                                17,
                                Seq::<u8>::empty(),
                            ));
                            assert(wire_hyp(serialized@, canon_view(v), 17, Seq::<u8>::empty()));
                        }
                    }
                    assert(payload_decodes(serialized@) == (fields_pos(
                        serialized@,
                        n as int,
                        pos as int,
                        0,
                    ) is Some));
                }
                Err(e)
            },
        }
    }
}



impl FormatView {
    /// Every collection fits the encoder's 32-bit length headers: a machine
    /// limit, far beyond any real rule set.
    pub open spec fn bounded(self) -> bool {
        &&& bounded_str_list(self.csp)
        &&& bounded_str_list(self.exceptions)
        &&& bounded_str_list(self.importants)
        &&& bounded_str_list(self.redirects)
        &&& bounded_str_list(self.filters_tagged)
        &&& bounded_str_list(self.filters)
        &&& bounded_str_list(self.generic_hide)
        &&& bounded_str_list(self.tagged_filters_all)
        &&& bounded_pair_list(self.resources)
        &&& bounded_str_list(self.simple_class_rules)
        &&& bounded_str_list(self.simple_id_rules)
        &&& bounded_nested_list(self.complex_class_rules)
        &&& bounded_nested_list(self.complex_id_rules)
        &&& bounded_nested_list(self.specific_rules)
        &&& bounded_str_list(self.misc_generic_selectors)
        &&& bounded_pair_list(self.scriptlets)
    }

    /// Validity of the hash-backed collections: a set holds no element twice,
    /// a map holds no key twice.
    pub open spec fn wf(self) -> bool {
        &&& self.simple_class_rules.no_duplicates()
        &&& self.simple_id_rules.no_duplicates()
        &&& self.misc_generic_selectors.no_duplicates()
        &&& keys_of(self.complex_class_rules).no_duplicates()
        &&& keys_of(self.complex_id_rules).no_duplicates()
    }
}

/// Observable equality of two states: ordered fields agree exactly, hash-backed
/// sets agree as sets, hash-backed maps agree as maps.
pub open spec fn equivalent(a: FormatView, b: FormatView) -> bool {
    &&& a.csp == b.csp
    &&& a.exceptions == b.exceptions
    &&& a.importants == b.importants
    &&& a.redirects == b.redirects
    &&& a.filters_tagged == b.filters_tagged
    &&& a.filters == b.filters
    &&& a.generic_hide == b.generic_hide
    &&& a.tagged_filters_all == b.tagged_filters_all
    &&& a.enable_optimizations == b.enable_optimizations
    &&& a.resources == b.resources
    &&& a.specific_rules == b.specific_rules
    &&& a.scriptlets == b.scriptlets
    &&& a.simple_class_rules.to_set() == b.simple_class_rules.to_set()
    &&& a.simple_id_rules.to_set() == b.simple_id_rules.to_set()
    &&& a.misc_generic_selectors.to_set() == b.misc_generic_selectors.to_set()
    &&& pairs_to_map(a.complex_class_rules) == pairs_to_map(b.complex_class_rules)
    &&& pairs_to_map(a.complex_id_rules) == pairs_to_map(b.complex_id_rules)
}

/// Round-trip identity: the state a blob parses back to — `canon_view(v)`, by
/// `serialize`'s and `deserialize`'s contracts — is observably equal to the
/// state `v` the blob was written for, and is itself valid.
pub proof fn lemma_round_trip(v: FormatView)
    requires
        v.wf(),
    ensures
        equivalent(canon_view(v), v),
        canon_view(v).wf(),
{
    let c = canon_view(v);
    lemma_sort_by_str_key_ensures(str_key(), v.simple_class_rules);
    lemma_sort_by_str_key_ensures(str_key(), v.simple_id_rules);
    lemma_sort_by_str_key_ensures(str_key(), v.misc_generic_selectors);
    lemma_same_multiset_same_set(c.simple_class_rules, v.simple_class_rules);
    lemma_same_multiset_same_set(c.simple_id_rules, v.simple_id_rules);
    lemma_same_multiset_same_set(c.misc_generic_selectors, v.misc_generic_selectors);
    lemma_nodup_transfer(v.simple_class_rules, c.simple_class_rules);
    lemma_nodup_transfer(v.simple_id_rules, c.simple_id_rules);
    lemma_nodup_transfer(v.misc_generic_selectors, c.misc_generic_selectors);
    lemma_sort_by_str_key_ensures(entry_key(), v.complex_class_rules);
    lemma_sort_by_str_key_ensures(entry_key(), v.complex_id_rules);
    lemma_entry_keys_nodup(v.complex_class_rules, c.complex_class_rules);
    lemma_entry_keys_nodup(v.complex_id_rules, c.complex_id_rules);
    lemma_entry_maps_agree(v.complex_class_rules, c.complex_class_rules);
    lemma_entry_maps_agree(v.complex_id_rules, c.complex_id_rules);
}

/// Determinism: two valid states that are observably equal — however their
/// hash-backed collections happen to be ordered internally — have the same
/// wire image, byte for byte.
pub proof fn lemma_serialize_deterministic(a: FormatView, b: FormatView)
    requires
        a.wf(),
        b.wf(),
        equivalent(a, b),
    ensures
        wire_of(a) == wire_of(b),
{
    lemma_sorted_strings_canonical(a.simple_class_rules, b.simple_class_rules);
    lemma_sorted_strings_canonical(a.simple_id_rules, b.simple_id_rules);
    lemma_sorted_strings_canonical(a.misc_generic_selectors, b.misc_generic_selectors);
    lemma_sorted_entries_canonical(a.complex_class_rules, b.complex_class_rules);
    lemma_sorted_entries_canonical(a.complex_id_rules, b.complex_id_rules);
    assert(canon_view(a) =~= canon_view(b));
}

/// The schema's image of one engine: the network-filtering and the
/// cosmetic-filtering halves, seen as the seventeen persisted fields.
pub open spec fn engine_view(b: Blocker, c: CosmeticFilterCache) -> FormatView {
    FormatView {
        csp: b.csp@,
        exceptions: b.exceptions@,
        importants: b.importants@,
        redirects: b.redirects@,
        filters_tagged: b.filters_tagged@,
        filters: b.filters@,
        generic_hide: b.generic_hide@,
        tagged_filters_all: views_of(b.tagged_filters_all@),
        enable_optimizations: b.enable_optimizations,
        resources: b.resources@,
        simple_class_rules: c.simple_class_rules@,
        simple_id_rules: c.simple_id_rules@,
        complex_class_rules: c.complex_class_rules@,
        complex_id_rules: c.complex_id_rules@,
        specific_rules: c.specific_rules@,
        misc_generic_selectors: c.misc_generic_selectors@,
        scriptlets: c.scriptlets@,
    }
}

impl<'a> SerializeFormat<'a> {
    /// Aggregates borrowed references into the two engine halves, copying
    /// nothing: the writer's view of the state is the engine's own.
    pub fn from(v: (&'a Blocker, &'a CosmeticFilterCache)) -> (r: Self)
        ensures
            r@ == engine_view(*v.0, *v.1),
    {
        let (blocker, cfc) = v;
        let r = SerializeFormat {
            csp: &blocker.csp,
            exceptions: &blocker.exceptions,
            importants: &blocker.importants,
            redirects: &blocker.redirects,
            filters_tagged: &blocker.filters_tagged,
            filters: &blocker.filters,
            generic_hide: &blocker.generic_hide,
            tagged_filters_all: &blocker.tagged_filters_all,
            enable_optimizations: blocker.enable_optimizations,
            resources: &blocker.resources,
            simple_class_rules: &cfc.simple_class_rules,
            simple_id_rules: &cfc.simple_id_rules,
            complex_class_rules: &cfc.complex_class_rules,
            complex_id_rules: &cfc.complex_id_rules,
            specific_rules: &cfc.specific_rules,
            misc_generic_selectors: &cfc.misc_generic_selectors,
            scriptlets: &cfc.scriptlets,
        };
        proof {
            assert(r@ =~= engine_view(*v.0, *v.1));
        }
        r
    }
}

impl DeserializeFormat {
    /// Splits the parsed data, without copying, into the two engine halves.
    /// Fields that are not part of the persisted format — the set of enabled
    /// tags is derived state — are reset to their empty value.
    pub fn into_engine_state(self) -> (r: (Blocker, CosmeticFilterCache))
        ensures
            engine_view(r.0, r.1) == self@,
            r.0.tags_enabled@ == Seq::<Seq<char>>::empty(),
            r.0.tags_enabled.wf(),
    {
        let ghost sv = self@;
        let blocker = Blocker {
            csp: self.csp,
            exceptions: self.exceptions,
            importants: self.importants,
            redirects: self.redirects,
            filters_tagged: self.filters_tagged,
            filters: self.filters,
            generic_hide: self.generic_hide,
            tags_enabled: StringSet::new(),
            tagged_filters_all: self.tagged_filters_all,
            enable_optimizations: self.enable_optimizations,
            resources: self.resources,
        };
        let cfc = CosmeticFilterCache {
            simple_class_rules: self.simple_class_rules,
            simple_id_rules: self.simple_id_rules,
            complex_class_rules: self.complex_class_rules,
            complex_id_rules: self.complex_id_rules,
            specific_rules: self.specific_rules,
            misc_generic_selectors: self.misc_generic_selectors,
            scriptlets: self.scriptlets,
        };
        proof {
            assert(engine_view(blocker, cfc) =~= sv);
        }
        (blocker, cfc)
    }
}

} // verus!
