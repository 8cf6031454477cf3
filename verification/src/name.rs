//! File names in the 8.3 short form, and directory slots.

use vstd::prelude::*;
use vstd::string::StringSliceAdditionalSpecFns;

use crate::error::FsError;
use crate::fs::Fcb;
use crate::fs::FcbView;
use crate::fs::fcb_from_bytes;
use crate::fs::FCB_SIZE;

verus! {

/// Can this byte be stored in a [`ShortName`]?
pub open spec fn is_short_byte(c: u8) -> bool {
    (48 <= c <= 57) || (65 <= c <= 90) || (97 <= c <= 122) || c == 95
}

pub open spec fn all_short(s: Seq<u8>) -> bool {
    forall|i: int| 0 <= i < s.len() ==> is_short_byte(#[trigger] s[i])
}

pub open spec fn ascii_upper(c: u8) -> u8 {
    if 97 <= c <= 122 {
        (c - 32) as u8
    } else {
        c
    }
}

pub open spec fn upper_bytes(s: Seq<u8>) -> Seq<u8> {
    s.map_values(|c: u8| ascii_upper(c))
}

/// `s` padded with spaces to `n` bytes.
pub open spec fn space_padded(s: Seq<u8>, n: nat) -> Seq<u8> {
    s + Seq::new((n - s.len()) as nat, |i: int| 32u8)
}

/// The (base, extension) parts of a valid 8.3 name, before case folding and padding.
///
/// A valid name is a non-empty base of at most 8 bytes, optionally followed by a dot and an
/// extension of at most 3 bytes, where every byte is an ASCII letter, digit or underscore.
pub open spec fn short_parts(b: Seq<u8>) -> Option<(Seq<u8>, Seq<u8>)> {
    if all_short(b) && 1 <= b.len() <= 8 {
        Some((b, Seq::empty()))
    } else if exists|i: int|
        1 <= i <= 8 && i < b.len() && b[i] == 46 && all_short(b.take(i)) && all_short(b.skip(i + 1))
            && b.len() - i - 1 <= 3 {
        let i = choose|i: int|
            1 <= i <= 8 && i < b.len() && b[i] == 46 && all_short(b.take(i)) && all_short(
                b.skip(i + 1),
            ) && b.len() - i - 1 <= 3;
        Some((b.take(i), b.skip(i + 1)))
    } else {
        None
    }
}

/// The stored (base, extension) bytes of a name, if it is a valid 8.3 name.
pub open spec fn short_name_spec(b: Seq<u8>) -> Option<(Seq<u8>, Seq<u8>)> {
    match short_parts(b) {
        Some((base, ext)) => Some(
            (space_padded(upper_bytes(base), 8), space_padded(upper_bytes(ext), 3)),
        ),
        None => None,
    }
}

/// The stored base of a valid name has 8 bytes and starts with a letter, digit or underscore, so
/// a slot that holds it reads as occupied.
pub proof fn lemma_short_name_first_byte(b: Seq<u8>)
    requires
        short_name_spec(b) is Some,
    ensures
        short_name_spec(b)->Some_0.0.len() == 8,
        short_name_spec(b)->Some_0.1.len() == 3,
        short_name_spec(b)->Some_0.0[0] != SLOT_UNUSED,
        short_name_spec(b)->Some_0.0[0] != SLOT_DELETED,
{
    let (base, ext) = short_parts(b)->Some_0;
    if all_short(b) && 1 <= b.len() <= 8 {
        assert(is_short_byte(base[0]));
    } else {
        let i = choose|i: int|
            1 <= i <= 8 && i < b.len() && b[i] == 46 && all_short(b.take(i)) && all_short(b.skip(i + 1))
                && b.len() - i - 1 <= 3;
        assert(base == b.take(i));
        assert(is_short_byte(base[0]));
    }
    assert(upper_bytes(base)[0] == ascii_upper(base[0]));
}

fn is_short_compatible(c: u8) -> (r: bool)
    ensures
        r == is_short_byte(c),
{
    (48 <= c && c <= 57) || (65 <= c && c <= 90) || (97 <= c && c <= 122) || c == 95
}

fn upper_byte(c: u8) -> (r: u8)
    ensures
        r == ascii_upper(c),
{
    if 97 <= c && c <= 122 {
        c - 32
    } else {
        c
    }
}

proof fn lemma_first_dot_unique(b: Seq<u8>, i: int, j: int)
    requires
        0 <= i < b.len(),
        0 <= j < b.len(),
        b[i] == 46,
        b[j] == 46,
        all_short(b.take(i)),
        all_short(b.take(j)),
    ensures
        i == j,
{
    if i < j {
        assert(b.take(j)[i] == b[i]);
    }
    if j < i {
        assert(b.take(i)[j] == b[j]);
    }
}

/// Position of the first dot, or `b.len()` if there is none; every byte before it is checked.
fn scan_base(b: &[u8]) -> (r: Option<usize>)
    ensures
        match r {
            Some(dot) => dot <= b@.len() && all_short(b@.take(dot as int)) && (dot < b@.len()
                ==> b@[dot as int] == 46),
            None => !all_short(b@) && short_parts(b@) is None,
        },
{
    let n = b.len();
    let mut i: usize = 0;
    while i < n
        invariant
            i <= n == b@.len(),
            all_short(b@.take(i as int)),
        decreases n - i,
    {
        if b[i] == 46 {
            return Some(i);
        }
        if !is_short_compatible(b[i]) {
            proof {
                assert(!all_short(b@)) by {
                    assert(!is_short_byte(b@[i as int]));
                }
                if exists|k: int|
                    1 <= k <= 8 && k < b@.len() && b@[k] == 46 && all_short(b@.take(k))
                        && all_short(b@.skip(k + 1)) && b@.len() - k - 1 <= 3 {
                    let k = choose|k: int|
                        1 <= k <= 8 && k < b@.len() && b@[k] == 46 && all_short(b@.take(k))
                            && all_short(b@.skip(k + 1)) && b@.len() - k - 1 <= 3;
                    if k < i {
                        assert(b@.take(i as int)[k] == b@[k]);
                    } else if k > i {
                        assert(b@.take(k)[i as int] == b@[i as int]);
                    }
                }
            }
            return None;
        }
        proof {
            assert forall|k: int| 0 <= k < i + 1 implies is_short_byte(
                #[trigger] b@.take(i + 1)[k],
            ) by {
                if k < i {
                    assert(b@.take(i + 1)[k] == b@.take(i as int)[k]);
                }
            }
        }
        i += 1;
    }
    Some(n)
}

/// Encodes an 8.3 name (given by its UTF-8 bytes) into its stored base and extension.
pub fn encode_name_bytes(b: &[u8]) -> (r: Option<([u8; 8], [u8; 3])>)
    ensures
        match short_name_spec(b@) {
            Some((base, ext)) => r is Some && (r->0).0@ == base && (r->0).1@ == ext,
            None => r is None,
        },
{
    let n = b.len();
    let dot = match scan_base(b) {
        Some(d) => d,
        None => return None,
    };
    let ghost d = dot as int;
    let base_len = dot;
    let ext_len: usize = if dot == n { 0 } else { n - dot - 1 };
    if base_len == 0 || base_len > 8 || ext_len > 3 {
        proof {
            if exists|k: int|
                1 <= k <= 8 && k < b@.len() && b@[k] == 46 && all_short(b@.take(k)) && all_short(
                    b@.skip(k + 1),
                ) && b@.len() - k - 1 <= 3 {
                let k = choose|k: int|
                    1 <= k <= 8 && k < b@.len() && b@[k] == 46 && all_short(b@.take(k))
                        && all_short(b@.skip(k + 1)) && b@.len() - k - 1 <= 3;
                if dot == n {
                    assert(b@.take(n as int) =~= b@);
                    assert(!is_short_byte(b@[k]));
                } else {
                    lemma_first_dot_unique(b@, k, d);
                }
            }
            if dot == n {
                assert(b@.take(n as int) =~= b@);
            } else {
                assert(!is_short_byte(b@[d]));
            }
        }
        return None;
    }
    // Check the extension bytes.
    if dot < n {
        let mut j: usize = dot + 1;
        while j < n
            invariant
                dot < n == b@.len(),
                dot + 1 <= j <= n,
                b@[d] == 46,
                d == dot,
                all_short(b@.take(d)),
                forall|k: int| dot + 1 <= k < j ==> is_short_byte(#[trigger] b@[k]),
            decreases n - j,
        {
            if !is_short_compatible(b[j]) {
                proof {
                    if exists|k: int|
                        1 <= k <= 8 && k < b@.len() && b@[k] == 46 && all_short(b@.take(k))
                            && all_short(b@.skip(k + 1)) && b@.len() - k - 1 <= 3 {
                        let k = choose|k: int|
                            1 <= k <= 8 && k < b@.len() && b@[k] == 46 && all_short(b@.take(k))
                                && all_short(b@.skip(k + 1)) && b@.len() - k - 1 <= 3;
                        lemma_first_dot_unique(b@, k, d);
                        assert(b@.skip(k + 1)[j - k - 1] == b@[j as int]);
                    }
                    assert(!is_short_byte(b@[d]));
                }
                return None;
            }
            j += 1;
        }
    }
    let mut base: [u8; 8] = [32u8; 8];
    let mut ext: [u8; 3] = [32u8; 3];
    let mut k: usize = 0;
    while k < base_len
        invariant
            base_len <= 8,
            base_len <= n == b@.len(),
            k <= base_len,
            forall|m: int| 0 <= m < k ==> base@[m] == ascii_upper(#[trigger] b@[m]),
            forall|m: int| k <= m < 8 ==> base@[m] == 32,
        decreases base_len - k,
    {
        base[k] = upper_byte(b[k]);
        k += 1;
    }
    let mut k: usize = 0;
    while k < ext_len
        invariant
            ext_len <= 3,
            dot < n ==> dot + 1 + ext_len == n,
            dot == n ==> ext_len == 0,
            dot <= n,
            n == b@.len(),
            k <= ext_len,
            forall|m: int| 0 <= m < k ==> ext@[m] == ascii_upper(#[trigger] b@[dot + 1 + m]),
            forall|m: int| k <= m < 3 ==> ext@[m] == 32,
        decreases ext_len - k,
    {
        ext[k] = upper_byte(b[dot + 1 + k]);
        k += 1;
    }
    proof {
        if dot == n {
            assert(b@.take(n as int) =~= b@);
            assert(short_parts(b@) == Some((b@, Seq::<u8>::empty())));
        } else {
            assert(all_short(b@.skip(d + 1))) by {
                assert forall|m: int| 0 <= m < b@.skip(d + 1).len() implies is_short_byte(
                    #[trigger] b@.skip(d + 1)[m],
                ) by {
                    assert(b@.skip(d + 1)[m] == b@[d + 1 + m]);
                }
            }
            assert(!all_short(b@)) by {
                assert(!is_short_byte(b@[d]));
            }
            let kk = choose|k: int|
                1 <= k <= 8 && k < b@.len() && b@[k] == 46 && all_short(b@.take(k)) && all_short(
                    b@.skip(k + 1),
                ) && b@.len() - k - 1 <= 3;
            lemma_first_dot_unique(b@, kk, d);
            assert(short_parts(b@) == Some((b@.take(d), b@.skip(d + 1))));
        }
        let (sb, se) = short_name_spec(b@)->0;
        let (pb, pe) = short_parts(b@)->0;
        assert(pe.len() == ext_len);
        assert forall|m: int| 0 <= m < ext_len implies pe[m] == b@[d + 1 + m] by {
            if dot < n {
                assert(pe[m] == b@.skip(d + 1)[m]);
            }
        }
        assert(base@ =~= sb);
        assert(ext@ =~= se);
    }
    Some((base, ext))
}

/// A file name (short name).
#[derive(Debug, Clone, Copy, PartialEq, Eq)]
pub struct ShortName {
    pub base: [u8; 8],
    pub ext: [u8; 3],
}

impl ShortName {
    pub const BASE_SIZE: usize = 8;

    pub const EXT_SIZE: usize = 3;

    /// Parses an 8.3 name, folding it to upper case.
    pub fn parse(value: &str) -> (r: Result<ShortName, FsError>)
        ensures
            match short_name_spec(value.spec_bytes()) {
                Some((base, ext)) => r is Ok && r->Ok_0.base@ == base && r->Ok_0.ext@ == ext,
                None => (r matches Err(FsError::InvalidName(s)) && s@ == value@),
            },
    {
        match encode_name_bytes(value.as_bytes()) {
            Some((base, ext)) => Ok(ShortName { base, ext }),
            None => Err(FsError::InvalidName(value.to_owned())),
        }
    }
}

impl<'a> TryFrom<&'a str> for ShortName {
    type Error = FsError;

    fn try_from(value: &'a str) -> (r: Result<ShortName, FsError>)
        ensures
            match short_name_spec(value.spec_bytes()) {
                Some((base, ext)) => r is Ok && r->Ok_0.base@ == base && r->Ok_0.ext@ == ext,
                None => (r matches Err(FsError::InvalidName(s)) && s@ == value@),
            },
    {
        ShortName::parse(value)
    }
}

impl<'a> vstd::std_specs::convert::TryFromSpecImpl<&'a str> for ShortName {
    /// The conversion's result is stated by the `ensures` of `try_from` itself.
    open spec fn obeys_try_from_spec() -> bool {
        false
    }

    open spec fn try_from_spec(v: &'a str) -> Result<ShortName, FsError> {
        arbitrary()
    }
}

/// Bytes up to (not including) the first space.
pub open spec fn before_space(b: Seq<u8>) -> Seq<u8> {
    if exists|i: int| 0 <= i < b.len() && b[i] == 32 {
        let i = choose|i: int| 0 <= i < b.len() && b[i] == 32 && forall|k: int| 0 <= k < i ==> b[k] != 32;
        b.take(i)
    } else {
        b
    }
}

/// The text that `String::from_utf8_lossy` makes of a byte sequence.
pub uninterp spec fn utf8_lossy(bytes: Seq<u8>) -> Seq<char>;

pub open spec fn ascii_chars(bytes: Seq<u8>) -> Seq<char> {
    bytes.map_values(|b: u8| b as char)
}

/// Are all bytes ASCII?
pub open spec fn all_ascii(bytes: Seq<u8>) -> bool {
    forall|i: int| 0 <= i < bytes.len() ==> #[trigger] bytes[i] < 128
}

/// The text that `String::from_utf8_lossy` makes of a byte sequence: ASCII bytes are the
/// characters with the same codes; other bytes decode as [`utf8_lossy`] names.
pub open spec fn decoded_text(bytes: Seq<u8>) -> Seq<char> {
    if all_ascii(bytes) {
        ascii_chars(bytes)
    } else {
        utf8_lossy(bytes)
    }
}

/// Calls `String::from_utf8_lossy`, which decodes UTF-8 and replaces each invalid sequence by
/// U+FFFD. Claimed: ASCII bytes decode to the characters with the same codes, and the text is a
/// function of the bytes. Left unsaid: how other bytes decode.
#[verifier::external_body]
pub(crate) fn lossy_string(bytes: &[u8]) -> (s: String)
    ensures
        all_ascii(bytes@) ==> s@ == ascii_chars(bytes@),
        !all_ascii(bytes@) ==> s@ == utf8_lossy(bytes@),
{
    String::from_utf8_lossy(bytes).into_owned()
}

fn first_space(bytes: &[u8]) -> (end: usize)
    ensures
        end <= bytes@.len(),
        bytes@.take(end as int) == before_space(bytes@),
{
    let mut i: usize = 0;
    while i < bytes.len()
        invariant
            i <= bytes@.len(),
            forall|k: int| 0 <= k < i ==> bytes@[k] != 32,
        decreases bytes@.len() - i,
    {
        if bytes[i] == 32 {
            proof {
                let j = choose|j: int|
                    0 <= j < bytes@.len() && bytes@[j] == 32 && forall|k: int|
                        0 <= k < j ==> bytes@[k] != 32;
                assert(j == i);
            }
            return i;
        }
        i += 1;
    }
    assert(bytes@.take(i as int) =~= bytes@);
    i
}

/// Text of a name part: the bytes before the first space.
pub open spec fn spaced_text(bytes: Seq<u8>) -> Seq<char> {
    decoded_text(before_space(bytes))
}

pub fn spaced_to_string(bytes: &[u8]) -> (s: String)
    ensures
        s@ == spaced_text(bytes@),
{
    let end = first_space(bytes);
    let part = vstd::slice::slice_subrange(bytes, 0, end);
    assert(part@ =~= bytes@.take(end as int));
    lossy_string(part)
}

/// The text of a short name: base, then a dot and the extension if the extension is non-empty.
pub open spec fn short_name_text(base: Seq<u8>, ext: Seq<u8>) -> Seq<char> {
    if spaced_text(ext).len() == 0 {
        spaced_text(base)
    } else {
        spaced_text(base) + seq!['.'] + spaced_text(ext)
    }
}

impl ShortName {
    /// The displayed form of this name.
    pub fn to_text(&self) -> (s: String)
        ensures
            s@ == short_name_text(self.base@, self.ext@),
    {
        let base = spaced_to_string(self.base.as_slice());
        let ext = spaced_to_string(self.ext.as_slice());
        if ext.as_str().is_empty() {
            base
        } else {
            let mut out = base;
            out.append(".");
            out.append(ext.as_str());
            proof {
                reveal_strlit(".");
            }
            out
        }
    }
}

/// The characters of a string, with ASCII lower-case letters folded to upper case.
pub open spec fn upper_chars(s: Seq<char>) -> Seq<char> {
    s.map_values(|c: char| if 'a' <= c <= 'z' { ((c as u32) - 32) as char } else { c })
}

/// Calls `str::to_ascii_uppercase`, which maps 'a'..='z' to 'A'..='Z' and keeps every other
/// character. Claimed: exactly that, character by character.
#[verifier::external_body]
pub(crate) fn to_ascii_uppercase(s: &str) -> (r: String)
    ensures
        r@ == upper_chars(s@),
{
    s.to_ascii_uppercase()
}

/// Is `s` one of the names that can never be a directory entry?
pub open spec fn reserved_component(s: Seq<char>) -> bool {
    s == "."@ || s == ".."@ || s.len() == 0
}

pub fn is_reserved_component(component: &str) -> (r: bool)
    ensures
        r == reserved_component(component@),
{
    proof {
        reveal_strlit(".");
        reveal_strlit("..");
        assert("."@ =~= seq!['.']);
        assert(".."@ =~= seq!['.', '.']);
    }
    let n = component.unicode_len();
    if n == 0 {
        return true;
    }
    if n > 2 {
        return false;
    }
    let c0 = component.get_char(0);
    if n == 1 {
        assert(component@ =~= seq![c0]);
        return c0 == '.';
    }
    let c1 = component.get_char(1);
    assert(component@ =~= seq![c0, c1]);
    c0 == '.' && c1 == '.'
}

/// Checks that `component` is a usable 8.3 name and returns it in upper case.
pub fn normalize_component(component: &str) -> (r: Result<String, FsError>)
    ensures
        !reserved_component(component@) && short_name_spec(component.spec_bytes()) is Some ==> r
            is Ok && r->Ok_0@ == upper_chars(component@),
        reserved_component(component@) || short_name_spec(component.spec_bytes()) is None ==> (r
            matches Err(FsError::InvalidName(s)) && s@ == component@),
{
    if is_reserved_component(component) {
        return Err(FsError::InvalidName(component.to_owned()));
    }
    let _ = ShortName::parse(component)?;
    Ok(to_ascii_uppercase(component))
}

/// A directory slot.
#[derive(Debug, Clone)]
pub enum DirSlot {
    Unused,
    Deleted,
    Occupied(Fcb),
}

pub const SLOT_UNUSED: u8 = 0x00;

pub const SLOT_DELETED: u8 = 0xE5;

/// The view of a directory slot.
pub enum SlotView {
    Unused,
    Deleted,
    Occupied(FcbView),
}

/// What a slot of `FCB_SIZE` bytes holds.
pub open spec fn slot_of_bytes(b: Seq<u8>) -> SlotView {
    if b[0] == SLOT_UNUSED {
        SlotView::Unused
    } else if b[0] == SLOT_DELETED {
        SlotView::Deleted
    } else {
        SlotView::Occupied(fcb_from_bytes(b))
    }
}

impl DirSlot {
    pub const SLOT_UNUSED: u8 = 0x00;

    pub const SLOT_DELETED: u8 = 0xE5;

    pub open spec fn view(&self) -> SlotView {
        match self {
            DirSlot::Unused => SlotView::Unused,
            DirSlot::Deleted => SlotView::Deleted,
            DirSlot::Occupied(f) => SlotView::Occupied(f@),
        }
    }

    /// Parses the slot at the front of `value`.
    pub fn parse(value: &[u8]) -> (r: Result<DirSlot, FsError>)
        ensures
            value@.len() >= FCB_SIZE ==> r is Ok && r->Ok_0.view() == slot_of_bytes(value@),
            value@.len() < FCB_SIZE ==> r is Err && r->Err_0 is CorruptFs,
    {
        if value.len() < FCB_SIZE {
            return Err(FsError::CorruptFs(String::from_str("fcb slot shorter than expected")));
        }
        if value[0] == SLOT_UNUSED {
            Ok(DirSlot::Unused)
        } else if value[0] == SLOT_DELETED {
            Ok(DirSlot::Deleted)
        } else {
            Ok(DirSlot::Occupied(Fcb::decode(value)))
        }
    }
}

impl<'a> TryFrom<&'a [u8]> for DirSlot {
    type Error = FsError;

    fn try_from(value: &'a [u8]) -> (r: Result<DirSlot, FsError>)
        ensures
            value@.len() >= FCB_SIZE ==> r is Ok && r->Ok_0.view() == slot_of_bytes(value@),
            value@.len() < FCB_SIZE ==> r is Err && r->Err_0 is CorruptFs,
    {
        DirSlot::parse(value)
    }
}

impl<'a> vstd::std_specs::convert::TryFromSpecImpl<&'a [u8]> for DirSlot {
    /// The conversion's result is stated by the `ensures` of `try_from` itself.
    open spec fn obeys_try_from_spec() -> bool {
        false
    }

    open spec fn try_from_spec(v: &'a [u8]) -> Result<DirSlot, FsError> {
        arbitrary()
    }
}

} // verus!
