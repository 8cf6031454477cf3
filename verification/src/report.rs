//! Values as text: numerals, node and slot names, and a listing of the allocation table.

use vstd::prelude::*;
use vstd::string::StringExecFns;

use crate::dev::BufferedBlockDevice;
use crate::error::DirEntryLoc;
use crate::error::NodeId;
use crate::error::ROOT_NODE_ID;
use crate::fat::FatEntry;
use crate::fs::ClusterId;
use crate::fs::FileHandle;
use crate::fs::ROOT_DIR_START;
use crate::layout::in_data;
use crate::layout::max_cluster;
use crate::myfs::MyFileSystem;

verus! {

/// The character of a decimal digit.
pub open spec fn digit_char(d: nat) -> char {
    if d == 0 { '0' } else if d == 1 { '1' } else if d == 2 { '2' } else if d == 3 { '3' } else if d == 4 { '4' } else if d == 5 {
        '5'
    } else if d == 6 { '6' } else if d == 7 { '7' } else if d == 8 { '8' } else { '9' }
}

/// The decimal numeral of `n`, without leading zeros.
pub open spec fn decimal_text(n: nat) -> Seq<char>
    decreases n,
{
    if n < 10 {
        seq![digit_char(n)]
    } else {
        decimal_text(n / 10).push(digit_char(n % 10))
    }
}

/// How an allocation-table entry is shown: "FREE", "EOC", or the number of the next cluster.
pub open spec fn entry_text(e: FatEntry) -> Seq<char> {
    match e {
        FatEntry::Free => "FREE"@,
        FatEntry::EndOfChain => "EOC"@,
        FatEntry::Next(c) => decimal_text(c.0 as nat),
    }
}

/// The line for cluster `i`: its number, a tab, an arrow, a tab, its entry, a newline.
pub open spec fn fat_line(i: nat, e: FatEntry) -> Seq<char> {
    decimal_text(i) + "\t->\t"@ + entry_text(e) + "\n"@
}

/// The lines of the clusters `lo..=hi`.
pub open spec fn fat_listing(fat: Seq<FatEntry>, lo: int, hi: int) -> Seq<char>
    decreases hi - lo + 1,
{
    if hi < lo {
        Seq::empty()
    } else {
        fat_listing(fat, lo, hi - 1) + fat_line(hi as nat, fat[hi])
    }
}

/// The character of a hexadecimal digit, in lower case.
pub open spec fn hex_char(d: nat) -> char {
    if d < 10 {
        digit_char(d)
    } else if d == 10 { 'a' } else if d == 11 { 'b' } else if d == 12 { 'c' } else if d == 13 { 'd' } else if d == 14 { 'e' } else {
        'f'
    }
}

/// The hexadecimal numeral of `n`, in lower case, without leading zeros.
pub open spec fn hex_text(n: nat) -> Seq<char>
    decreases n,
{
    if n < 16 {
        seq![hex_char(n)]
    } else {
        hex_text(n / 16).push(hex_char(n % 16))
    }
}

/// The text of one decimal digit.
fn digit_str(d: u64) -> (s: &'static str)
    requires
        d < 10,
    ensures
        s@ == seq![digit_char(d as nat)],
{
    proof {
        reveal_strlit("0");
        reveal_strlit("1");
        reveal_strlit("2");
        reveal_strlit("3");
        reveal_strlit("4");
        reveal_strlit("5");
        reveal_strlit("6");
        reveal_strlit("7");
        reveal_strlit("8");
        reveal_strlit("9");
    }
    if d == 0 {
        "0"
    } else if d == 1 {
        "1"
    } else if d == 2 {
        "2"
    } else if d == 3 {
        "3"
    } else if d == 4 {
        "4"
    } else if d == 5 {
        "5"
    } else if d == 6 {
        "6"
    } else if d == 7 {
        "7"
    } else if d == 8 {
        "8"
    } else {
        "9"
    }
}

/// Appends the decimal numeral of `n` to `out`.
pub(crate) fn push_decimal(out: &mut String, n: u64)
    ensures
        final(out)@ == old(out)@ + decimal_text(n as nat),
    decreases n,
{
    if n >= 10 {
        push_decimal(out, n / 10);
    }
    out.append(digit_str(n % 10));
    proof {
        if n >= 10 {
            assert(decimal_text(n as nat) == decimal_text((n / 10) as nat).push(digit_char((n % 10) as nat)));
        }
    }
}

/// The text `prefix`, the decimal numeral of `n`, then `suffix`.
pub(crate) fn numbered_text(prefix: &str, n: u64, suffix: &str) -> (s: String)
    ensures
        s@ == prefix@ + decimal_text(n as nat) + suffix@,
{
    let mut s = String::from_str(prefix);
    push_decimal(&mut s, n);
    s.append(suffix);
    s
}

/// The text `prefix`, the decimal numeral of `a`, `middle`, then the decimal numeral of `b`.
pub(crate) fn two_numbered_text(prefix: &str, a: u64, middle: &str, b: u64) -> (s: String)
    ensures
        s@ == prefix@ + decimal_text(a as nat) + middle@ + decimal_text(b as nat),
{
    let mut s = numbered_text(prefix, a, middle);
    push_decimal(&mut s, b);
    s
}

/// The text of one hexadecimal digit.
fn hex_digit_str(d: u64) -> (s: &'static str)
    requires
        d < 16,
    ensures
        s@ == seq![hex_char(d as nat)],
{
    if d < 10 {
        return digit_str(d);
    }
    proof {
        reveal_strlit("a");
        reveal_strlit("b");
        reveal_strlit("c");
        reveal_strlit("d");
        reveal_strlit("e");
        reveal_strlit("f");
    }
    if d == 10 {
        "a"
    } else if d == 11 {
        "b"
    } else if d == 12 {
        "c"
    } else if d == 13 {
        "d"
    } else if d == 14 {
        "e"
    } else {
        "f"
    }
}

/// Appends the hexadecimal numeral of `n` to `out`.
pub(crate) fn push_hex(out: &mut String, n: u64)
    ensures
        final(out)@ == old(out)@ + hex_text(n as nat),
    decreases n,
{
    if n >= 16 {
        push_hex(out, n / 16);
    }
    out.append(hex_digit_str(n % 16));
    proof {
        if n >= 16 {
            assert(hex_text(n as nat) == hex_text((n / 16) as nat).push(hex_char((n % 16) as nat)));
        }
    }
}

/// The four hexadecimal digits of `v`, with leading zeros.
pub open spec fn hex4_text(v: u16) -> Seq<char> {
    seq![
        hex_char((v / 4096) as nat),
        hex_char(((v / 256) % 16) as nat),
        hex_char(((v / 16) % 16) as nat),
        hex_char((v % 16) as nat),
    ]
}

/// The text `prefix` followed by `0x` and the four hexadecimal digits of `v`.
pub(crate) fn hex4_message(prefix: &str, v: u16) -> (s: String)
    ensures
        s@ == prefix@ + "0x"@ + hex4_text(v),
{
    let mut s = String::from_str(prefix);
    s.append("0x");
    s.append(hex_digit_str((v / 4096) as u64));
    s.append(hex_digit_str(((v / 256) % 16) as u64));
    s.append(hex_digit_str(((v / 16) % 16) as u64));
    s.append(hex_digit_str((v % 16) as u64));
    proof {
        assert(s@ =~= prefix@ + "0x"@ + hex4_text(v));
    }
    s
}

/// The text `prefix` followed by `0x` and the hexadecimal numeral of `v`.
pub(crate) fn hex_message(prefix: &str, v: u64) -> (s: String)
    ensures
        s@ == prefix@ + "0x"@ + hex_text(v as nat),
{
    let mut s = String::from_str(prefix);
    s.append("0x");
    push_hex(&mut s, v);
    s
}

/// Appends the line for cluster `i` with entry `e` to `out`.
fn push_fat_line(out: &mut String, i: u16, e: FatEntry)
    ensures
        final(out)@ == old(out)@ + fat_line(i as nat, e),
{
    proof {
        reveal_strlit("\t->\t");
        reveal_strlit("\n");
        reveal_strlit("FREE");
        reveal_strlit("EOC");
    }
    let ghost s0 = out@;
    push_decimal(out, i as u64);
    out.append("\t->\t");
    match e {
        FatEntry::Free => out.append("FREE"),
        FatEntry::EndOfChain => out.append("EOC"),
        FatEntry::Next(c) => push_decimal(out, c.0 as u64),
    }
    out.append("\n");
    assert(out@ =~= s0 + fat_line(i as nat, e));
}

/// The text of a path below a directory: its first cluster, a slash, the name.
pub(crate) fn child_path(dir: ClusterId, key: &str) -> (s: String)
    ensures
        s@ == decimal_text(dir.0 as nat) + "/"@ + key@,
{
    let mut out = String::new();
    push_decimal(&mut out, dir.0 as u64);
    out.append("/");
    out.append(key);
    out
}

impl<D: BufferedBlockDevice> MyFileSystem<D> {
    /// The allocation table as text: one line per data cluster, in order.
    pub fn display_fat(&self) -> (r: String)
        requires
            self.wf(),
        ensures
            r@ == fat_listing(self.fat(), ROOT_DIR_START as int, max_cluster(self.boot_view())),
    {
        proof {
            self.lemma_wf();
        }
        let last = self.max_cluster_id().0;
        let mut out = String::new();
        let mut i: u32 = ROOT_DIR_START as u32;
        while i <= last as u32
            invariant
                self.wf(),
                last == max_cluster(self.boot_view()),
                max_cluster(self.boot_view()) >= 2,
                ROOT_DIR_START <= i <= last + 1,
                out@ == fat_listing(self.fat(), ROOT_DIR_START as int, i - 1),
            decreases last + 1 - i,
        {
            let c = ClusterId(i as u16);
            let value = match self.read_fat(c) {
                Ok(v) => v,
                Err(_) => FatEntry::Free,
            };
            push_fat_line(&mut out, i as u16, value);
            i = i + 1;
        }
        out
    }
}

impl FatEntry {
    /// How the entry is shown: "FREE", "EOC", or the number of the next cluster.
    pub fn to_text(&self) -> (s: String)
        ensures
            s@ == entry_text(*self),
    {
        proof {
            reveal_strlit("FREE");
            reveal_strlit("EOC");
        }
        let mut out = String::new();
        match self {
            FatEntry::Free => out.append("FREE"),
            FatEntry::EndOfChain => out.append("EOC"),
            FatEntry::Next(c) => push_decimal(&mut out, c.0 as u64),
        }
        assert(out@ =~= entry_text(*self));
        out
    }
}

impl FileHandle {
    /// The handle's number in decimal.
    pub fn to_text(&self) -> (s: String)
        ensures
            s@ == decimal_text(self.0 as nat),
    {
        let mut out = String::new();
        push_decimal(&mut out, self.0 as u64);
        assert(out@ =~= decimal_text(self.0 as nat));
        out
    }
}

impl DirEntryLoc {
    /// The location as text: the directory's first cluster, a colon, the slot index.
    pub fn to_text(&self) -> (s: String)
        ensures
            s@ == decimal_text(self.dir_start.0 as nat) + ":"@ + decimal_text(self.entry_index as nat),
    {
        proof {
            reveal_strlit(":");
        }
        let mut out = String::new();
        push_decimal(&mut out, self.dir_start.0 as u64);
        out.append(":");
        push_decimal(&mut out, self.entry_index as u64);
        out
    }
}

impl NodeId {
    /// The node as text: "<root>" for the root, else its number in lower-case hexadecimal.
    pub fn to_text(&self) -> (s: String)
        ensures
            s@ == (if self.0 == ROOT_NODE_ID { "<root>"@ } else { hex_text(self.0 as nat) }),
    {
        proof {
            reveal_strlit("<root>");
        }
        if self.0 == ROOT_NODE_ID {
            return String::from_str("<root>");
        }
        let mut out = String::new();
        push_hex(&mut out, self.0);
        assert(out@ =~= hex_text(self.0 as nat));
        out
    }
}

} // verus!
