//! What holds of the canonical encoding of every value.

use vstd::prelude::*;
use vstd::utf8::{encode_utf8_valid_utf8, is_leading_byte_width_1, partial_valid_utf8, partial_valid_utf8_extend_ascii_block, valid_utf8, valid_utf8_concat};
use crate::compact::{bool_bytes, decimal, decimal_nat, null_bytes, separator};
use crate::members::{key_order, lemma_key_order};
use crate::normalize::nfc;
use crate::order::strictly_ascending;
use crate::state::{members_bytes, members_prefix};
use crate::utf8::lemma_char_of_number;
use crate::value::{canonical, dict_members, escape_free, escape_of, lemma_escape_free_string, lemma_run_length, list_bytes, run_bytes, run_length, string_bytes, text_bytes, Json, Pair};

verus! {

/// The encoded key of a member of an object.
pub open spec fn encoded_key(member: Pair) -> Seq<u8> {
    string_bytes(member.name)
}

/// No two members of the object have the same encoded key.
pub open spec fn distinct_keys(members: Seq<Pair>) -> bool {
    forall|i: int, j: int|
        0 <= i < j < members.len() ==> encoded_key(#[trigger] members[i]) != encoded_key(
            #[trigger] members[j],
        )
}

/// Members with the same encoded key have the same encoded value.
spec fn consistent(members: Seq<Pair>) -> bool {
    forall|i: int, j: int|
        0 <= i < members.len() && 0 <= j < members.len() && encoded_key(#[trigger] members[i])
            == encoded_key(#[trigger] members[j]) ==> canonical(members[i].value) == canonical(
            members[j].value,
        )
}

/// The keys of the member table of an object are the encoded keys of its
/// members, and there are finitely many of them.
proof fn lemma_dict_keys(members: Seq<Pair>, n: nat)
    requires
        n <= members.len(),
    ensures
        dict_members(members, n).dom().finite(),
        forall|k: Seq<u8>| #[trigger]
            dict_members(members, n).dom().contains(k) <==> exists|i: int|
                0 <= i < n && encoded_key(#[trigger] members[i]) == k,
    decreases n,
{
    if n > 0 {
        let before = dict_members(members, (n - 1) as nat);
        lemma_dict_keys(members, (n - 1) as nat);
        assert forall|k: Seq<u8>| #[trigger]
            dict_members(members, n).dom().contains(k) <==> exists|i: int|
                0 <= i < n && encoded_key(#[trigger] members[i]) == k by {
            if dict_members(members, n).dom().contains(k) {
                if k == encoded_key(members[n - 1]) {
                } else {
                    assert(before.dom().contains(k));
                    let i = choose|i: int| 0 <= i < n - 1 && encoded_key(#[trigger] members[i]) == k;
                    assert(0 <= i < n && encoded_key(members[i]) == k);
                }
            }
            if exists|i: int| 0 <= i < n && encoded_key(#[trigger] members[i]) == k {
                let i = choose|i: int| 0 <= i < n && encoded_key(#[trigger] members[i]) == k;
                if i < n - 1 {
                    assert(before.dom().contains(k));
                }
            }
        }
    }
}

/// Where equal keys come with equal values, the member table holds the
/// encoded value of every member under its encoded key.
proof fn lemma_dict_values(members: Seq<Pair>, n: nat)
    requires
        n <= members.len(),
        consistent(members),
    ensures
        forall|i: int|
            0 <= i < n ==> dict_members(members, n)[encoded_key(#[trigger] members[i])]
                == canonical(members[i].value),
    decreases n,
{
    if n > 0 {
        lemma_dict_values(members, (n - 1) as nat);
        assert forall|i: int| 0 <= i < n implies dict_members(members, n)[encoded_key(
            #[trigger] members[i],
        )] == canonical(members[i].value) by {
            if encoded_key(members[i]) == encoded_key(members[n - 1]) {
                assert(canonical(members[i].value) == canonical(members[n - 1].value));
            }
        }
    }
}

/// Every object, at the top of a value or inside it, is written as its
/// member table between braces: each encoded key once, with the value that
/// belongs to it, in strictly ascending byte order of the encoded keys.
pub proof fn law_members_sorted(members: Seq<Pair>)
    ensures
        canonical(Json::Dict(members)) == seq![123u8] + members_bytes(
            dict_members(members, members.len()),
        ) + seq![125u8],
        strictly_ascending(key_order(dict_members(members, members.len()))),
        forall|k: Seq<u8>| #[trigger]
            key_order(dict_members(members, members.len())).contains(k) <==> exists|i: int|
                0 <= i < members.len() && encoded_key(#[trigger] members[i]) == k,
{
    let table = dict_members(members, members.len());
    lemma_dict_keys(members, members.len());
    lemma_key_order(table);
    assert forall|k: Seq<u8>| #[trigger]
        key_order(table).contains(k) <==> exists|i: int|
            0 <= i < members.len() && encoded_key(#[trigger] members[i]) == k by {
        assert(key_order(table).contains(k) <==> table.dom().contains(k));
    }
}

/// Of the members of an object with one encoded key the last one stays:
/// the member table holds its encoded value under that key.
pub proof fn law_last_member_stays(members: Seq<Pair>, i: int)
    requires
        0 <= i < members.len(),
        forall|j: int|
            i < j < members.len() ==> encoded_key(#[trigger] members[j]) != encoded_key(
                members[i],
            ),
    ensures
        dict_members(members, members.len()).dom().contains(encoded_key(members[i])),
        dict_members(members, members.len())[encoded_key(members[i])] == canonical(
            members[i].value,
        ),
{
    lemma_last_member_stays(members, i, members.len());
}

proof fn lemma_last_member_stays(members: Seq<Pair>, i: int, n: nat)
    requires
        0 <= i < n <= members.len(),
        forall|j: int|
            i < j < members.len() ==> encoded_key(#[trigger] members[j]) != encoded_key(
                members[i],
            ),
    ensures
        dict_members(members, n).dom().contains(encoded_key(members[i])),
        dict_members(members, n)[encoded_key(members[i])] == canonical(members[i].value),
    decreases n,
{
    if n > i + 1 {
        lemma_last_member_stays(members, i, (n - 1) as nat);
        assert(encoded_key(members[n - 1]) != encoded_key(members[i]));
    }
}

/// The order in which the members of an object are given does not matter:
/// two objects with the same members, none of them with the encoded key of
/// another, have the same encoding.
pub proof fn law_member_order_irrelevant(a: Seq<Pair>, b: Seq<Pair>)
    requires
        distinct_keys(a),
        forall|member: Pair| #[trigger] a.contains(member) <==> b.contains(member),
    ensures
        canonical(Json::Dict(a)) == canonical(Json::Dict(b)),
{
    let table_a = dict_members(a, a.len());
    let table_b = dict_members(b, b.len());
    assert(consistent(a)) by {
        assert forall|i: int, j: int|
            0 <= i < a.len() && 0 <= j < a.len() && encoded_key(#[trigger] a[i]) == encoded_key(
                #[trigger] a[j],
            ) implies canonical(a[i].value) == canonical(a[j].value) by {
            if i < j {
                assert(encoded_key(a[i]) != encoded_key(a[j]));
            } else if j < i {
                assert(encoded_key(a[j]) != encoded_key(a[i]));
            }
        }
    }
    assert(consistent(b)) by {
        assert forall|i: int, j: int|
            0 <= i < b.len() && 0 <= j < b.len() && encoded_key(#[trigger] b[i]) == encoded_key(
                #[trigger] b[j],
            ) implies canonical(b[i].value) == canonical(b[j].value) by {
            assert(b.contains(b[i]));
            assert(b.contains(b[j]));
            assert(a.contains(b[i]));
            assert(a.contains(b[j]));
            let p = choose|p: int| 0 <= p < a.len() && a[p] == b[i];
            let q = choose|q: int| 0 <= q < a.len() && a[q] == b[j];
            assert(encoded_key(a[p]) == encoded_key(a[q]));
        }
    }
    lemma_dict_keys(a, a.len());
    lemma_dict_keys(b, b.len());
    lemma_dict_values(a, a.len());
    lemma_dict_values(b, b.len());
    assert(table_a =~= table_b) by {
        assert forall|k: Seq<u8>| table_a.dom().contains(k) implies table_b.dom().contains(k)
            && table_a[k] == table_b[k] by {
            let i = choose|i: int| 0 <= i < a.len() && encoded_key(#[trigger] a[i]) == k;
            assert(a.contains(a[i]));
            assert(b.contains(a[i]));
            let j = choose|j: int| 0 <= j < b.len() && b[j] == a[i];
            assert(encoded_key(b[j]) == k);
            assert(table_a[encoded_key(a[i])] == canonical(a[i].value));
            assert(table_b[encoded_key(b[j])] == canonical(b[j].value));
        }
        assert forall|k: Seq<u8>| table_b.dom().contains(k) implies table_a.dom().contains(k) by {
            let j = choose|j: int| 0 <= j < b.len() && encoded_key(#[trigger] b[j]) == k;
            assert(b.contains(b[j]));
            assert(a.contains(b[j]));
            let i = choose|i: int| 0 <= i < a.len() && a[i] == b[j];
            assert(encoded_key(a[i]) == k);
        }
    }
}

/// The encoding of an object rests on the names of its members and on the
/// encodings of their values alone: an object inside a value may be put in
/// another order, as `law_member_order_irrelevant` has it, and the encoding
/// of the whole stays what it was.
pub proof fn law_members_by_their_encoding(a: Seq<Pair>, b: Seq<Pair>)
    requires
        a.len() == b.len(),
        forall|i: int|
            0 <= i < a.len() ==> (#[trigger] a[i]).name == b[i].name && canonical(a[i].value)
                == canonical(b[i].value),
    ensures
        canonical(Json::Dict(a)) == canonical(Json::Dict(b)),
{
    lemma_same_tables(a, b, a.len());
}

proof fn lemma_same_tables(a: Seq<Pair>, b: Seq<Pair>, n: nat)
    requires
        n <= a.len(),
        a.len() == b.len(),
        forall|i: int|
            0 <= i < a.len() ==> (#[trigger] a[i]).name == b[i].name && canonical(a[i].value)
                == canonical(b[i].value),
    ensures
        dict_members(a, n) == dict_members(b, n),
    decreases n,
{
    if n > 0 {
        lemma_same_tables(a, b, (n - 1) as nat);
        assert(a[n - 1].name == b[n - 1].name);
    }
}

/// The encoding of an array rests on the encodings of its values alone.
pub proof fn law_items_by_their_encoding(a: Seq<Json>, b: Seq<Json>)
    requires
        a.len() == b.len(),
        forall|i: int| 0 <= i < a.len() ==> canonical(#[trigger] a[i]) == canonical(b[i]),
    ensures
        canonical(Json::List(a)) == canonical(Json::List(b)),
{
    lemma_same_lists(a, b, a.len());
}

proof fn lemma_same_lists(a: Seq<Json>, b: Seq<Json>, n: nat)
    requires
        n <= a.len(),
        a.len() == b.len(),
        forall|i: int| 0 <= i < a.len() ==> canonical(#[trigger] a[i]) == canonical(b[i]),
    ensures
        list_bytes(a, n) == list_bytes(b, n),
    decreases n,
{
    if n > 0 {
        lemma_same_lists(a, b, (n - 1) as nat);
        assert(canonical(a[n - 1]) == canonical(b[n - 1]));
    }
}

/// Two strings with the same Normalization Form C, neither with a
/// character that calls for an escape and both empty or neither, give the
/// same encoding as the value of a member.
pub proof fn law_nfc_equivalent_strings(name: Seq<char>, s1: Seq<char>, s2: Seq<char>)
    requires
        nfc(s1) == nfc(s2),
        escape_free(s1),
        escape_free(s2),
        s1.len() == 0 <==> s2.len() == 0,
    ensures
        string_bytes(s1) == string_bytes(s2),
        canonical(Json::Dict(seq![Pair { name, value: Json::Text(s1) }])) == canonical(
            Json::Dict(seq![Pair { name, value: Json::Text(s2) }]),
        ),
{
    lemma_escape_free_string(s1);
    lemma_escape_free_string(s2);
    law_members_by_their_encoding(
        seq![Pair { name, value: Json::Text(s1) }],
        seq![Pair { name, value: Json::Text(s2) }],
    );
}

/// Of the characters of a string only the quote and the backslash are
/// written with a backslash before them. A control character below U+0020
/// is written as the one byte that it is, and every other character,
/// the solidus among them, calls for no escape at all.
pub proof fn law_only_quote_and_backslash_escaped(c: char)
    ensures
        match escape_of(c) {
            Some(escape) => {
                &&& (c as u32) < 0x80
                &&& escape.bytes() == if c == '"' || c == '\\' {
                    seq![0x5cu8, (c as u32) as u8]
                } else {
                    seq![(c as u32) as u8]
                }
            },
            None => (c as u32) >= 0x20 && c != '"' && c != '\\',
        },
        escape_of('/') is None,
{
    lemma_char_of_number(c, '"');
    lemma_char_of_number(c, '\\');
}

/// Bytes below 0x80 are valid UTF-8, whatever their number and order.
proof fn lemma_ascii_is_utf8(bytes: Seq<u8>)
    requires
        forall|i: int| 0 <= i < bytes.len() ==> #[trigger] bytes[i] < 0x80,
    ensures
        valid_utf8(bytes),
{
    assert(bytes.subrange(0, 0) =~= Seq::<u8>::empty());
    assert(partial_valid_utf8(bytes, 0));
    assert forall|i: int| 0 <= 0 <= i < bytes.len() <= bytes.len() implies #[trigger]
        is_leading_byte_width_1(bytes[i]) by {}
    partial_valid_utf8_extend_ascii_block(bytes, 0, bytes.len() as int);
    assert(bytes.subrange(0, bytes.len() as int) =~= bytes);
}

proof fn lemma_decimal_is_utf8(n: int)
    ensures
        valid_utf8(decimal(n)),
{
    if n < 0 {
        lemma_digits_are_ascii((-n) as nat);
    } else {
        lemma_digits_are_ascii(n as nat);
    }
    lemma_ascii_is_utf8(decimal(n));
}

proof fn lemma_digits_are_ascii(n: nat)
    ensures
        forall|i: int| 0 <= i < decimal_nat(n).len() ==> #[trigger] decimal_nat(n)[i] < 0x80,
    decreases n,
{
    if n >= 10 {
        lemma_digits_are_ascii(n / 10);
        let front = decimal_nat(n / 10);
        assert forall|i: int| 0 <= i < decimal_nat(n).len() implies #[trigger] decimal_nat(n)[i]
            < 0x80 by {
            if i < front.len() {
                assert(decimal_nat(n)[i] == front[i]);
            }
        }
    }
}

proof fn lemma_text_is_utf8(text: Seq<char>)
    ensures
        valid_utf8(text_bytes(text)),
    decreases text.len(),
{
    let n = run_length(text) as int;
    lemma_run_length(text);
    if n >= text.len() {
        encode_utf8_valid_utf8(nfc(text));
    } else {
        let run = text.take(n);
        let escape = escape_of(text[n])->Some_0;
        encode_utf8_valid_utf8(nfc(run));
        lemma_ascii_is_utf8(escape.bytes());
        lemma_text_is_utf8(text.skip(n + 1));
        valid_utf8_concat(run_bytes(run), escape.bytes());
        valid_utf8_concat(run_bytes(run) + escape.bytes(), text_bytes(text.skip(n + 1)));
    }
}

proof fn lemma_string_is_utf8(text: Seq<char>)
    ensures
        valid_utf8(string_bytes(text)),
{
    lemma_ascii_is_utf8(seq![34u8]);
    lemma_text_is_utf8(text);
    valid_utf8_concat(seq![34u8], text_bytes(text));
    valid_utf8_concat(seq![34u8] + text_bytes(text), seq![34u8]);
}

proof fn lemma_list_is_utf8(items: Seq<Json>, n: nat)
    requires
        n <= items.len(),
        forall|i: int| 0 <= i < items.len() ==> valid_utf8(canonical(#[trigger] items[i])),
    ensures
        valid_utf8(list_bytes(items, n)),
    decreases n,
{
    if n > 0 {
        lemma_list_is_utf8(items, (n - 1) as nat);
        lemma_ascii_is_utf8(separator(n == 1));
        assert(valid_utf8(canonical(items[n - 1])));
        valid_utf8_concat(list_bytes(items, (n - 1) as nat), separator(n == 1));
        valid_utf8_concat(
            list_bytes(items, (n - 1) as nat) + separator(n == 1),
            canonical(items[n - 1]),
        );
    }
}

proof fn lemma_table_is_utf8(members: Seq<Pair>, n: nat)
    requires
        n <= members.len(),
        forall|i: int|
            0 <= i < members.len() ==> valid_utf8(canonical((#[trigger] members[i]).value)),
    ensures
        forall|k: Seq<u8>| #[trigger]
            dict_members(members, n).dom().contains(k) ==> valid_utf8(k) && valid_utf8(
                dict_members(members, n)[k],
            ),
    decreases n,
{
    if n > 0 {
        let before = dict_members(members, (n - 1) as nat);
        lemma_table_is_utf8(members, (n - 1) as nat);
        lemma_string_is_utf8(members[n - 1].name);
        assert(valid_utf8(canonical(members[n - 1].value)));
        assert forall|k: Seq<u8>| #[trigger]
            dict_members(members, n).dom().contains(k) implies valid_utf8(k) && valid_utf8(
            dict_members(members, n)[k],
        ) by {
            if k != string_bytes(members[n - 1].name) {
                assert(before.dom().contains(k));
            }
        }
    }
}

proof fn lemma_members_are_utf8(table: Map<Seq<u8>, Seq<u8>>, n: int)
    requires
        table.dom().finite(),
        n <= key_order(table).len(),
        forall|k: Seq<u8>| #[trigger]
            table.dom().contains(k) ==> valid_utf8(k) && valid_utf8(table[k]),
    ensures
        valid_utf8(members_prefix(table, n)),
    decreases n,
{
    if n > 0 {
        lemma_members_are_utf8(table, n - 1);
        lemma_key_order(table);
        let key = key_order(table)[n - 1];
        assert(key_order(table).contains(key));
        assert(table.dom().contains(key));
        lemma_ascii_is_utf8(separator(n == 1));
        lemma_ascii_is_utf8(seq![58u8]);
        let before = members_prefix(table, n - 1);
        valid_utf8_concat(before, separator(n == 1));
        valid_utf8_concat(before + separator(n == 1), key);
        valid_utf8_concat(before + separator(n == 1) + key, seq![58u8]);
        valid_utf8_concat(before + separator(n == 1) + key + seq![58u8], table[key]);
    }
}

/// The canonical encoding of every value is valid UTF-8.
pub proof fn law_encoding_is_utf8(json: Json)
    ensures
        valid_utf8(canonical(json)),
    decreases json,
{
    match json {
        Json::Null => {
            lemma_ascii_is_utf8(null_bytes());
        },
        Json::Bool(b) => {
            lemma_ascii_is_utf8(bool_bytes(b));
        },
        Json::Int(n) => {
            lemma_decimal_is_utf8(n);
        },
        Json::Float => {},
        Json::Text(text) => {
            lemma_string_is_utf8(text);
        },
        Json::List(items) => {
            assert forall|i: int| 0 <= i < items.len() implies valid_utf8(
                canonical(#[trigger] items[i]),
            ) by {
                law_encoding_is_utf8(items[i]);
            }
            lemma_list_is_utf8(items, items.len());
            lemma_ascii_is_utf8(seq![91u8]);
            lemma_ascii_is_utf8(seq![93u8]);
            valid_utf8_concat(seq![91u8], list_bytes(items, items.len()));
            valid_utf8_concat(seq![91u8] + list_bytes(items, items.len()), seq![93u8]);
        },
        Json::Dict(members) => {
            assert forall|i: int| 0 <= i < members.len() implies valid_utf8(
                canonical((#[trigger] members[i]).value),
            ) by {
                law_encoding_is_utf8(members[i].value);
            }
            let table = dict_members(members, members.len());
            lemma_table_is_utf8(members, members.len());
            lemma_dict_keys(members, members.len());
            lemma_members_are_utf8(table, key_order(table).len() as int);
            lemma_ascii_is_utf8(seq![123u8]);
            lemma_ascii_is_utf8(seq![125u8]);
            valid_utf8_concat(seq![123u8], members_bytes(table));
            valid_utf8_concat(seq![123u8] + members_bytes(table), seq![125u8]);
        },
    }
}

} // verus!
