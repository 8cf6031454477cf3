//! How a stored 8.3 name reads back: the name that was asked for, in upper case.

use vstd::prelude::*;
use vstd::utf8::encode_scalar;
use vstd::utf8::encode_utf8;
use vstd::utf8::is_ascii_chars;

use crate::name::all_ascii;
use crate::name::all_short;
use crate::name::ascii_chars;
use crate::name::ascii_upper;
use crate::name::before_space;
use crate::name::decoded_text;
use crate::name::short_name_spec;
use crate::name::short_name_text;
use crate::name::short_parts;
use crate::name::space_padded;
use crate::name::spaced_text;
use crate::name::upper_bytes;
use crate::name::upper_chars;

verus! {

/// Text whose UTF-8 bytes are all ASCII is ASCII.
proof fn lemma_ascii_bytes_ascii_chars(chars: Seq<char>)
    requires
        all_ascii(encode_utf8(chars)),
    ensures
        is_ascii_chars(chars),
    decreases chars.len(),
{
    if chars.len() > 0 {
        let c0 = chars[0] as u32;
        vstd::utf8::char_is_scalar(chars[0]);
        let es = encode_scalar(c0);
        let rest = encode_utf8(chars.drop_first());
        assert(encode_utf8(chars) == es + rest);
        assert(encode_utf8(chars)[0] == es[0]);
        if !vstd::utf8::has_width_1_encoding(c0) {
            assert((0xC0u8 | (((c0 >> 6u32) & 0x1Fu32) as u8)) >= 0x80u8) by (bit_vector);
            assert((0xE0u8 | (((c0 >> 12u32) & 0x0Fu32) as u8)) >= 0x80u8) by (bit_vector);
            assert((0xF0u8 | (((c0 >> 18u32) & 0x7u32) as u8)) >= 0x80u8) by (bit_vector);
            assert(es[0] >= 0x80);
        }
        assert forall|j: int| 0 <= j < rest.len() implies #[trigger] rest[j] < 128 by {
            assert(rest[j] == encode_utf8(chars)[es.len() + j]);
        }
        lemma_ascii_bytes_ascii_chars(chars.drop_first());
        assert forall|i: int| 0 <= i < chars.len() implies '\0' <= #[trigger] chars[i] <= '\u{7f}' by {
            if i > 0 {
                assert(chars[i] == chars.drop_first()[i - 1]);
            } else {
                assert(c0 <= 0x7f);
                vstd::utf8::char_u32_cast(chars[0], c0);
                assert((c0 as char) == chars[0]);
                assert((c0 as char) <= '\u{7f}');
            }
        }
    }
}

/// ASCII text is the characters of its UTF-8 bytes.
proof fn lemma_ascii_round_trip(chars: Seq<char>)
    requires
        is_ascii_chars(chars),
    ensures
        ascii_chars(encode_utf8(chars)) == chars,
        all_ascii(encode_utf8(chars)),
{
    vstd::utf8::is_ascii_chars_encode_utf8(chars);
    let b = encode_utf8(chars);
    assert forall|i: int| 0 <= i < chars.len() implies ascii_chars(b)[i] == chars[i] by {
        assert(chars[i] as u8 == b[i]);
        assert('\0' <= chars[i] <= '\u{7f}');
    }
    assert(ascii_chars(b) =~= chars);
    assert forall|i: int| 0 <= i < b.len() implies #[trigger] b[i] < 128 by {
        assert(chars[i] as u8 == b[i]);
        assert('\0' <= chars[i] <= '\u{7f}');
    }
}

/// Folding a name part to upper case commutes with reading it as characters, and keeps it free
/// of spaces and ASCII.
proof fn lemma_upper_part(s: Seq<u8>)
    requires
        all_short(s),
    ensures
        ascii_chars(upper_bytes(s)) == upper_chars(ascii_chars(s)),
        all_ascii(upper_bytes(s)),
        forall|i: int| 0 <= i < upper_bytes(s).len() ==> #[trigger] upper_bytes(s)[i] != 32,
        all_ascii(s),
{
    assert forall|i: int| 0 <= i < s.len() implies ascii_chars(upper_bytes(s))[i] == upper_chars(ascii_chars(s))[i] by {
        let c = s[i];
        assert(crate::name::is_short_byte(c));
        assert(upper_bytes(s)[i] == ascii_upper(c));
    }
    assert(ascii_chars(upper_bytes(s)) =~= upper_chars(ascii_chars(s)));
    assert forall|i: int| 0 <= i < upper_bytes(s).len() implies #[trigger] upper_bytes(s)[i] < 128 && upper_bytes(s)[i] != 32 by {
        assert(crate::name::is_short_byte(s[i]));
    }
    assert forall|i: int| 0 <= i < s.len() implies #[trigger] s[i] < 128 by {
        assert(crate::name::is_short_byte(s[i]));
    }
}

/// A part padded with spaces reads back as the part, as long as it holds no space.
proof fn lemma_before_padding(t: Seq<u8>, n: nat)
    requires
        t.len() <= n,
        forall|i: int| 0 <= i < t.len() ==> #[trigger] t[i] != 32,
    ensures
        before_space(space_padded(t, n)) == t,
{
    let p = space_padded(t, n);
    if t.len() < n {
        assert(p[t.len() as int] == 32);
        let i = choose|i: int| 0 <= i < p.len() && p[i] == 32 && forall|k: int| 0 <= k < i ==> p[k] != 32;
        if i < t.len() {
            assert(p[i] == t[i]);
        }
        if i > t.len() {
            assert(p[t.len() as int] == 32);
        }
        assert(p.take(i) =~= t);
    } else {
        assert forall|i: int| 0 <= i < p.len() implies p[i] != 32 by {
            assert(p[i] == t[i]);
        }
        assert(p =~= t);
    }
}

/// The text of a stored name part.
proof fn lemma_part_text(s: Seq<u8>, n: nat)
    requires
        all_short(s),
        s.len() <= n,
    ensures
        spaced_text(space_padded(upper_bytes(s), n)) == upper_chars(ascii_chars(s)),
{
    lemma_upper_part(s);
    lemma_before_padding(upper_bytes(s), n);
}

/// A valid 8.3 name that does not end in a dot is stored so that it reads back as the name in
/// upper case. (A name that ends in a dot is stored with an empty extension, which reads back
/// without the dot.)
pub proof fn law_stored_name_reads_back(name: Seq<char>, base: Seq<u8>, ext: Seq<u8>)
    requires
        short_name_spec(encode_utf8(name)) == Some((base, ext)),
        name.len() > 0 && name.last() != '.',
    ensures
        short_name_text(base, ext) == upper_chars(name),
{
    let b = encode_utf8(name);
    let (pb, pe) = short_parts(b)->Some_0;
    if all_short(b) && 1 <= b.len() <= 8 {
        lemma_upper_part(b);
        lemma_ascii_bytes_ascii_chars(name);
        lemma_ascii_round_trip(name);
        lemma_part_text(b, 8);
        assert(all_short(Seq::<u8>::empty()));
        lemma_part_text(Seq::<u8>::empty(), 3);
        assert(upper_chars(ascii_chars(Seq::<u8>::empty())) =~= Seq::<char>::empty());
    } else {
        let i = choose|i: int|
            1 <= i <= 8 && i < b.len() && b[i] == 46 && all_short(b.take(i)) && all_short(b.skip(i + 1))
                && b.len() - i - 1 <= 3;
        assert(pb == b.take(i) && pe == b.skip(i + 1));
        lemma_upper_part(pb);
        lemma_upper_part(pe);
        assert forall|k: int| 0 <= k < b.len() implies #[trigger] b[k] < 128 by {
            if k < i {
                assert(b[k] == pb[k]);
            } else if k > i {
                assert(b[k] == pe[k - i - 1]);
            }
        }
        lemma_ascii_bytes_ascii_chars(name);
        lemma_ascii_round_trip(name);
        assert(b =~= pb + seq![46u8] + pe);
        assert(ascii_chars(b) =~= ascii_chars(pb) + seq!['.'] + ascii_chars(pe));
        lemma_part_text(pb, 8);
        lemma_part_text(pe, 3);
        if pe.len() == 0 {
            assert(name.last() == ascii_chars(b).last());
            assert(false);
        }
        assert(upper_chars(ascii_chars(pb) + seq!['.'] + ascii_chars(pe)) =~= upper_chars(ascii_chars(pb)) + seq!['.']
            + upper_chars(ascii_chars(pe)));
    }
}

/// Folding to upper case twice is folding once, and keeps short bytes short.
proof fn lemma_upper_twice(s: Seq<u8>)
    requires
        all_short(s),
    ensures
        upper_bytes(upper_bytes(s)) == upper_bytes(s),
        all_short(upper_bytes(s)),
        upper_bytes(s).len() == s.len(),
{
    assert(upper_bytes(upper_bytes(s)) =~= upper_bytes(s));
    assert forall|i: int| 0 <= i < upper_bytes(s).len() implies crate::name::is_short_byte(#[trigger] upper_bytes(s)[i]) by {
        assert(crate::name::is_short_byte(s[i]));
    }
}

/// The UTF-8 bytes of ASCII text in upper case are its bytes folded to upper case.
proof fn lemma_upper_encoding(name: Seq<char>)
    requires
        all_ascii(encode_utf8(name)),
    ensures
        encode_utf8(upper_chars(name)) == upper_bytes(encode_utf8(name)),
{
    lemma_ascii_bytes_ascii_chars(name);
    lemma_ascii_round_trip(name);
    let b = encode_utf8(name);
    let u = upper_chars(name);
    assert(is_ascii_chars(u)) by {
        assert forall|i: int| 0 <= i < u.len() implies '\0' <= #[trigger] u[i] <= '\u{7f}' by {
            assert('\0' <= name[i] <= '\u{7f}');
        }
    }
    lemma_ascii_round_trip(u);
    let ub = encode_utf8(u);
    vstd::utf8::is_ascii_chars_encode_utf8(name);
    vstd::utf8::is_ascii_chars_encode_utf8(u);
    assert forall|i: int| 0 <= i < ub.len() implies #[trigger] ub[i] == upper_bytes(b)[i] by {
        assert(ascii_chars(ub)[i] == u[i]);
        assert(ascii_chars(b)[i] == name[i]);
        assert(ub[i] < 128 && b[i] < 128);
    }
    assert(ub =~= upper_bytes(b));
}

/// Parsing the text of a stored name gives the stored name again: a valid 8.3 name that does not
/// end in a dot reads back as a text whose own short name is the one that was stored.
pub proof fn law_stored_name_reparses(name: Seq<char>, base: Seq<u8>, ext: Seq<u8>)
    requires
        short_name_spec(encode_utf8(name)) == Some((base, ext)),
        name.len() > 0 && name.last() != '.',
    ensures
        short_name_spec(encode_utf8(short_name_text(base, ext))) == Some((base, ext)),
{
    law_stored_name_reads_back(name, base, ext);
    let b = encode_utf8(name);
    let ub = upper_bytes(b);
    if all_short(b) && 1 <= b.len() <= 8 {
        assert forall|k: int| 0 <= k < b.len() implies #[trigger] b[k] < 128 by {
            assert(crate::name::is_short_byte(b[k]));
        }
        lemma_upper_encoding(name);
        lemma_upper_twice(b);
        assert(upper_bytes(Seq::<u8>::empty()) =~= Seq::<u8>::empty());
    } else {
        let i = choose|i: int|
            1 <= i <= 8 && i < b.len() && b[i] == 46 && all_short(b.take(i)) && all_short(b.skip(i + 1))
                && b.len() - i - 1 <= 3;
        let pb = b.take(i);
        let pe = b.skip(i + 1);
        assert forall|k: int| 0 <= k < b.len() implies #[trigger] b[k] < 128 by {
            if k < i {
                assert(b[k] == pb[k]);
                assert(crate::name::is_short_byte(pb[k]));
            } else if k > i {
                assert(b[k] == pe[k - i - 1]);
                assert(crate::name::is_short_byte(pe[k - i - 1]));
            }
        }
        lemma_upper_encoding(name);
        lemma_upper_twice(pb);
        lemma_upper_twice(pe);
        assert(ub.take(i) =~= upper_bytes(pb));
        assert(ub.skip(i + 1) =~= upper_bytes(pe));
        assert(ub[i] == 46);
        assert(!all_short(ub)) by {
            assert(!crate::name::is_short_byte(ub[i]));
        }
        assert(1 <= i <= 8 && i < ub.len() && ub[i] == 46 && all_short(ub.take(i)) && all_short(ub.skip(i + 1)) && ub.len() - i
            - 1 <= 3);
        let i2 = choose|i2: int|
            1 <= i2 <= 8 && i2 < ub.len() && ub[i2] == 46 && all_short(ub.take(i2)) && all_short(ub.skip(i2 + 1)) && ub.len() - i2
                - 1 <= 3;
        if i2 < i {
            assert(ub.take(i)[i2] == 46);
        } else if i2 > i {
            assert(ub.take(i2)[i] == 46);
        }
        assert(i2 == i);
    }
}

} // verus!
