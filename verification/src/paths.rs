//! Where the files of the tiles lie, relative to a root directory. A slash
//! stands between the names of a path.

use vstd::prelude::*;
#[allow(unused_imports)]
use vstd::string::*;
use crate::numbers::{
    decimal, decimal_text, is_digit, lemma_decimal_digits, lemma_decimal_read_back,
    lemma_number_bound, parse_unsigned, unsigned_number, NumberError,
};
use crate::text::{chars_of, same_text, texts};
use crate::tiles::TileCoord;

verus! {

/// The directory of a tile.
pub open spec fn tile_name(t: TileCoord) -> Seq<char> {
    decimal(t.0 as nat) + "/"@ + decimal(t.1 as nat) + "/"@ + decimal(t.2 as nat)
}

fn tile_name_text(tile: TileCoord) -> (res: String)
    ensures
        res@ == tile_name(tile),
{
    let mut out = decimal_text(tile.0 as u64);
    out.append("/");
    out.append(decimal_text(tile.1 as u64).as_str());
    out.append("/");
    out.append(decimal_text(tile.2 as u64).as_str());
    out
}

/// The file with the points of a tile.
pub fn tile_path(tile: TileCoord) -> (res: String)
    ensures
        res@ == tile_name(tile) + ".bin"@,
{
    let mut out = tile_name_text(tile);
    out.append(".bin");
    out
}

/// The file with the model of a tile.
pub fn tile_uri(tile: TileCoord) -> (res: String)
    ensures
        res@ == tile_name(tile) + ".glb"@,
{
    let mut out = tile_name_text(tile);
    out.append(".glb");
    out
}

/// The file with the points of a leaf that one run holds.
pub fn run_path(leaf: TileCoord, run_index: usize) -> (res: String)
    ensures
        res@ == tile_name(leaf) + "/run-"@ + decimal(run_index as nat) + ".bin"@,
{
    let mut out = tile_name_text(leaf);
    out.append("/run-");
    out.append(decimal_text(run_index as u64).as_str());
    out.append(".bin");
    out
}

/// The pattern of the files with the points of a leaf, of all the runs.
pub fn runs_pattern(leaf: TileCoord) -> (res: String)
    ensures
        res@ == tile_name(leaf) + "/*.bin"@,
{
    let mut out = tile_name_text(leaf);
    out.append("/*.bin");
    out
}

/// The pattern of the files with the points of the tiles of a level.
pub fn level_pattern(level: u8) -> (res: String)
    ensures
        res@ == decimal(level as nat) + "/**/*.bin"@,
{
    let mut out = decimal_text(level as u64);
    out.append("/**/*.bin");
    out
}

/// The number of characters before the first slash.
pub open spec fn name_len(s: Seq<char>) -> nat
    decreases s.len(),
{
    if s.len() == 0 || s[0] == '/' {
        0
    } else {
        1 + name_len(s.drop_first())
    }
}

/// The length of the first name is at most the length of the path.
pub proof fn lemma_name_len(s: Seq<char>)
    ensures
        name_len(s) <= s.len(),
    decreases s.len(),
{
    if s.len() > 0 && s[0] != '/' {
        lemma_name_len(s.drop_first());
    }
}

/// The names of a path, without those that stand for the directory itself.
pub open spec fn names(s: Seq<char>) -> Seq<Seq<char>>
    decreases s.len(),
{
    if s.len() == 0 {
        Seq::empty()
    } else if s[0] == '/' {
        names(s.drop_first())
    } else {
        proof {
            lemma_name_len(s);
        }
        let name = s.take(name_len(s) as int);
        let rest = names(s.skip(name_len(s) as int));
        if name == "."@ {
            rest
        } else {
            seq![name] + rest
        }
    }
}

/// The index of the last dot, or -1 where there is none.
pub open spec fn dot_index(s: Seq<char>) -> int
    decreases s.len(),
{
    if s.len() == 0 {
        -1
    } else if s.last() == '.' {
        s.len() - 1
    } else {
        dot_index(s.drop_last())
    }
}

/// A file's name without its extension. A dot in front begins no extension.
pub open spec fn stem(name: Seq<char>) -> Seq<char> {
    if dot_index(name) <= 0 {
        name
    } else {
        name.take(dot_index(name))
    }
}

/// The tile whose file a path leads to: its level, its column and its row are
/// the last three names of the path.
pub open spec fn path_tile(path: Seq<char>) -> Option<TileCoord> {
    let all = names(path);
    let n = all.len() as int;
    if n < 3 {
        None
    } else {
        match (
            unsigned_number(all[n - 3], 255),
            unsigned_number(all[n - 2], 0xffff_ffff),
            unsigned_number(stem(all[n - 1]), 0xffff_ffff),
        ) {
            (Ok(z), Ok(x), Ok(y)) => Some((z as u8, x as u32, y as u32)),
            _ => None,
        }
    }
}

/// Splits a path into its names.
fn split_path(s: &str) -> (res: Vec<String>)
    ensures
        texts(res@) == names(s@),
{
    let chars = chars_of(s);
    let mut out: Vec<String> = Vec::new();
    let mut pos: usize = 0;
    assert(s@.skip(0) =~= s@);
    assert(texts(out@) + names(s@) =~= names(s@));
    while pos < chars.len()
        invariant
            pos <= chars.len(),
            chars@ == s@,
            texts(out@) + names(s@.skip(pos as int)) == names(s@),
        decreases chars.len() - pos,
    {
        let ghost rest = s@.skip(pos as int);
        if chars[pos] == '/' {
            assert(rest.drop_first() =~= s@.skip(pos + 1));
            pos += 1;
        } else {
            let mut end: usize = pos;
            while end < chars.len() && chars[end] != '/'
                invariant
                    pos <= end <= chars.len(),
                    chars@ == s@,
                    name_len(s@.skip(pos as int)) == end - pos + name_len(s@.skip(end as int)),
                decreases chars.len() - end,
            {
                assert(s@.skip(end as int).drop_first() =~= s@.skip(end + 1));
                end += 1;
            }
            assert(name_len(rest) == end - pos);
            let name = s.substring_char(pos, end).to_owned();
            let ghost before = texts(out@);
            proof {
                assert(name@ =~= rest.take(end - pos));
                assert(rest.skip(end - pos) =~= s@.skip(end as int));
            }
            if !same_text(name.as_str(), ".") {
                out.push(name);
                proof {
                    assert(texts(out@) =~= before.push(name@));
                    assert(before + (seq![name@] + names(s@.skip(end as int))) =~= texts(out@) + names(
                        s@.skip(end as int),
                    ));
                }
            }
            pos = end;
        }
    }
    assert(s@.skip(pos as int) =~= Seq::<char>::empty());
    assert(texts(out@) + names(s@.skip(pos as int)) =~= texts(out@));
    out
}

/// Takes the extension off a file's name.
fn stem_of(name: &str) -> (res: &str)
    ensures
        res@ == stem(name@),
{
    let chars = chars_of(name);
    let mut end: usize = chars.len();
    assert(name@.take(chars@.len() as int) =~= name@);
    while end > 0 && chars[end - 1] != '.'
        invariant
            end <= chars.len(),
            chars@ == name@,
            dot_index(name@) == dot_index(name@.take(end as int)),
        decreases end,
    {
        assert(name@.take(end as int).drop_last() =~= name@.take(end - 1));
        end -= 1;
    }
    if end <= 1 {
        name
    } else {
        name.substring_char(0, end - 1)
    }
}

/// Finds out which tile's file a path leads to, if it leads to one.
pub fn parse_tile_path(path: &str) -> (res: Option<TileCoord>)
    ensures
        res == path_tile(path@),
{
    let all = split_path(path);
    let n: usize = all.len();
    if n < 3 {
        return None;
    }
    proof {
        assert(names(path@)[n - 3] == all@[n - 3]@);
        assert(names(path@)[n - 2] == all@[n - 2]@);
        assert(names(path@)[n - 1] == all@[n - 1]@);
    }
    let z = parse_unsigned(all[n - 3].as_str(), 255);
    let x = parse_unsigned(all[n - 2].as_str(), 0xffff_ffff);
    let y = parse_unsigned(stem_of(all[n - 1].as_str()), 0xffff_ffff);
    match (z, x, y) {
        (Ok(z), Ok(x), Ok(y)) => Some((z as u8, x as u32, y as u32)),
        _ => None,
    }
}

/// Whether a text is a single name of a path.
spec fn plain(s: Seq<char>) -> bool {
    &&& s.len() > 0
    &&& s != "."@
    &&& forall|i: int| 0 <= i < s.len() ==> #[trigger] s[i] != '/'
}

proof fn lemma_plain_name(s: Seq<char>)
    requires
        plain(s),
    ensures
        names(s) == seq![s],
{
    lemma_plain_len(s);
    assert(s.take(s.len() as int) =~= s);
    assert(s.skip(s.len() as int) =~= Seq::<char>::empty());
    assert(names(Seq::<char>::empty()) =~= Seq::<Seq<char>>::empty());
    assert(names(s) =~= seq![s]);
}

proof fn lemma_plain_len(s: Seq<char>)
    requires
        forall|i: int| 0 <= i < s.len() ==> #[trigger] s[i] != '/',
    ensures
        name_len(s) == s.len(),
    decreases s.len(),
{
    if s.len() > 0 {
        lemma_plain_len(s.drop_first());
    }
}

proof fn lemma_name_len_joined(a: Seq<char>, b: Seq<char>)
    ensures
        name_len(a + seq!['/'] + b) == name_len(a),
    decreases a.len(),
{
    let s = a + seq!['/'] + b;
    if a.len() == 0 {
        assert(s[0] == '/');
    } else {
        lemma_name_len_joined(a.drop_first(), b);
        assert(s.drop_first() =~= a.drop_first() + seq!['/'] + b);
        assert(s[0] == a[0]);
    }
}

/// The names of a path below another are those of the one behind those of the
/// other.
pub proof fn lemma_names_joined(a: Seq<char>, b: Seq<char>)
    ensures
        names(a + seq!['/'] + b) == names(a) + names(b),
    decreases a.len(),
{
    let s = a + seq!['/'] + b;
    if a.len() == 0 {
        assert(s.drop_first() =~= b);
        assert(names(a) + names(b) =~= names(b));
    } else if a[0] == '/' {
        lemma_names_joined(a.drop_first(), b);
        assert(s.drop_first() =~= a.drop_first() + seq!['/'] + b);
        assert(s[0] == a[0]);
    } else {
        let n = name_len(a) as int;
        lemma_name_len(a);
        lemma_name_len_joined(a, b);
        assert(s[0] == a[0]);
        assert(s.take(n) =~= a.take(n));
        assert(s.skip(n) =~= a.skip(n) + seq!['/'] + b);
        lemma_names_joined(a.skip(n), b);
        assert(seq![a.take(n)] + (names(a.skip(n)) + names(b)) =~= (seq![a.take(n)] + names(a.skip(n)))
            + names(b));
    }
}

proof fn lemma_decimal_plain(n: nat)
    ensures
        plain(decimal(n)),
        plain(decimal(n) + ".bin"@),
        stem(decimal(n) + ".bin"@) == decimal(n),
{
    lemma_decimal_digits(n);
    reveal_strlit(".");
    reveal_strlit(".bin");
    let d = decimal(n);
    let f = d + ".bin"@;
    assert(is_digit(d[0]));
    assert forall|i: int| 0 <= i < d.len() implies #[trigger] d[i] != '/' by {
        assert(is_digit(d[i]));
    }
    assert forall|i: int| 0 <= i < f.len() implies #[trigger] f[i] != '/' by {
        if i < d.len() {
            assert(f[i] == d[i]);
        } else {
            assert(f[i] == ".bin"@[i - d.len()]);
        }
    }
    if d == "."@ {
        assert("."@[0] == '.');
    }
    if f == "."@ {
        assert(f.len() == 1);
    }
    let l = d.len() as int;
    assert(f[l] == ".bin"@[0] && f[l + 1] == ".bin"@[1] && f[l + 2] == ".bin"@[2] && f[l + 3]
        == ".bin"@[3]);
    let f1 = f.drop_last();
    let f2 = f1.drop_last();
    let f3 = f2.drop_last();
    assert(dot_index(f) == dot_index(f1));
    assert(dot_index(f1) == dot_index(f2));
    assert(dot_index(f2) == dot_index(f3));
    assert(f3.last() == '.');
    assert(dot_index(f3) == l);
    assert(f.take(l) =~= d);
}

/// The path of a tile's file, below whatever root, leads back to the tile.
pub proof fn lemma_tile_path_read_back(root: Seq<char>, t: TileCoord)
    ensures
        path_tile(root + "/"@ + (tile_name(t) + ".bin"@)) == Some(t),
{
    reveal_strlit("/");
    assert("/"@ =~= seq!['/']);
    let z = decimal(t.0 as nat);
    let x = decimal(t.1 as nat);
    let y = decimal(t.2 as nat);
    let file = y + ".bin"@;
    let path = root + "/"@ + (tile_name(t) + ".bin"@);
    let r1 = root + seq!['/'] + z;
    let r2 = r1 + seq!['/'] + x;
    assert(path =~= r2 + seq!['/'] + file);
    lemma_decimal_plain(t.0 as nat);
    lemma_decimal_plain(t.1 as nat);
    lemma_decimal_plain(t.2 as nat);
    lemma_plain_name(z);
    lemma_plain_name(x);
    lemma_plain_name(file);
    lemma_names_joined(root, z);
    lemma_names_joined(r1, x);
    lemma_names_joined(r2, file);
    assert(names(path) =~= names(root).push(z).push(x).push(file));
    lemma_decimal_read_back(t.0 as nat, 255);
    lemma_decimal_read_back(t.1 as nat, 0xffff_ffff);
    lemma_decimal_read_back(t.2 as nat, 0xffff_ffff);
}

/// A text without a slash is a path of one name, unless it is empty or stands for
/// the directory itself: then it is a path of none.
pub proof fn lemma_one_name(s: Seq<char>)
    requires
        forall|i: int| 0 <= i < s.len() ==> #[trigger] s[i] != '/',
    ensures
        names(s) == if s.len() == 0 || s == seq!['.'] {
            Seq::<Seq<char>>::empty()
        } else {
            seq![s]
        },
{
    reveal_strlit(".");
    assert("."@ =~= seq!['.']);
    if s.len() > 0 {
        lemma_plain_len(s);
        assert(s.take(s.len() as int) =~= s);
        assert(s.skip(s.len() as int) =~= Seq::<char>::empty());
        assert(names(Seq::<char>::empty()) =~= Seq::<Seq<char>>::empty());
        assert(seq![s] + Seq::<Seq<char>>::empty() =~= seq![s]);
    }
}

/// The directory of a tile has three names: the level, the column and the row, in
/// decimal notation.
pub proof fn lemma_tile_names(t: TileCoord)
    ensures
        names(tile_name(t)) == seq![
            decimal(t.0 as nat),
            decimal(t.1 as nat),
            decimal(t.2 as nat),
        ],
{
    reveal_strlit("/");
    let z = decimal(t.0 as nat);
    let x = decimal(t.1 as nat);
    let y = decimal(t.2 as nat);
    let zx = z + seq!['/'] + x;
    lemma_decimal_plain(t.0 as nat);
    lemma_decimal_plain(t.1 as nat);
    lemma_decimal_plain(t.2 as nat);
    lemma_plain_name(z);
    lemma_plain_name(x);
    lemma_plain_name(y);
    assert("/"@ =~= seq!['/']);
    assert(tile_name(t) =~= zx + seq!['/'] + y);
    lemma_names_joined(z, x);
    lemma_names_joined(zx, y);
    assert(names(tile_name(t)) =~= seq![z, x, y]);
}

/// A file's name loses what stands behind its last dot, and the dot, unless
/// nothing stands before it; a name without a dot loses nothing.
pub proof fn lemma_stem(name: Seq<char>, extension: Seq<char>)
    requires
        forall|i: int| 0 <= i < extension.len() ==> #[trigger] extension[i] != '.',
    ensures
        name.len() > 0 ==> stem(name + seq!['.'] + extension) == name,
        stem(seq!['.'] + extension) == seq!['.'] + extension,
        stem(extension) == extension,
{
    lemma_dot_index(name, extension);
    lemma_dot_index(Seq::empty(), extension);
    lemma_no_dot(extension);
    let s = name + seq!['.'] + extension;
    assert(s.take(name.len() as int) =~= name);
    assert(Seq::<char>::empty() + seq!['.'] + extension =~= seq!['.'] + extension);
}

proof fn lemma_dot_index(name: Seq<char>, extension: Seq<char>)
    requires
        forall|i: int| 0 <= i < extension.len() ==> #[trigger] extension[i] != '.',
    ensures
        dot_index(name + seq!['.'] + extension) == name.len(),
    decreases extension.len(),
{
    let s = name + seq!['.'] + extension;
    if extension.len() == 0 {
        assert(s.last() == '.');
    } else {
        assert(s.last() == extension[extension.len() - 1]);
        assert(s.drop_last() =~= name + seq!['.'] + extension.drop_last());
        lemma_dot_index(name, extension.drop_last());
    }
}

proof fn lemma_no_dot(s: Seq<char>)
    requires
        forall|i: int| 0 <= i < s.len() ==> #[trigger] s[i] != '.',
    ensures
        dot_index(s) == -1,
    decreases s.len(),
{
    if s.len() > 0 {
        assert(s.last() == s[s.len() - 1]);
        lemma_no_dot(s.drop_last());
    }
}

/// Which tile's file a path leads to depends on its last three names alone; a path
/// of fewer leads to none.
pub proof fn lemma_path_end(root: Seq<char>, path: Seq<char>)
    ensures
        names(path).len() >= 3 ==> path_tile(root + seq!['/'] + path) == path_tile(path),
        names(path).len() < 3 ==> path_tile(path) is None,
{
    lemma_names_joined(root, path);
    let all = names(root) + names(path);
    let n = names(path).len() as int;
    if n >= 3 {
        assert(all[all.len() - 3] == names(path)[n - 3]);
        assert(all[all.len() - 2] == names(path)[n - 2]);
        assert(all[all.len() - 1] == names(path)[n - 1]);
    }
}

/// A path leads to a tile's file if and only if its last three names, the last
/// without its extension, are numbers that a level, a column and a row can have;
/// these are the tile's.
pub proof fn lemma_path_numbers(path: Seq<char>, t: TileCoord)
    requires
        names(path).len() >= 3,
    ensures
        ({
            let last = names(path).skip(names(path).len() - 3);
            path_tile(path) == Some(t) <==> {
                &&& unsigned_number(last[0], u8::MAX as nat) == Ok::<nat, NumberError>(t.0 as nat)
                &&& unsigned_number(last[1], u32::MAX as nat) == Ok::<nat, NumberError>(t.1 as nat)
                &&& unsigned_number(stem(last[2]), u32::MAX as nat) == Ok::<nat, NumberError>(
                    t.2 as nat,
                )
            }
        }),
{
    let all = names(path);
    let n = all.len() as int;
    let last = all.skip(n - 3);
    assert(last[0] == all[n - 3] && last[1] == all[n - 2] && last[2] == all[n - 1]);
    lemma_number_bound(last[0], 255);
    lemma_number_bound(last[1], 0xffff_ffff);
    lemma_number_bound(stem(last[2]), 0xffff_ffff);
}

} // verus!
