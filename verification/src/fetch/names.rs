//! Which tensors of a checkpoint are kept, under which names, and which are folded into one.
//!
//! A checkpoint is a table of tensors by name; here it is the list of its names, none of which
//! occurs twice. A plan lists the tensors of the converted checkpoint. Where two entries have the
//! same name, the later one counts.

use vstd::prelude::*;
use vstd::string::StrSliceExecFns;
use vstd::string::StringExecFns;
use crate::scan;

verus! {

/// Where a tensor comes from.
#[derive(Debug, Clone, Copy, PartialEq, Eq, Structural)]
pub enum Source {
    /// The tensor at this place.
    Kept(usize),
    /// The direction at the second place, scaled to the magnitudes at the first, which vary along
    /// the dimension given last.
    Folded(usize, usize, usize),
    /// The same, without the dimension given last, which has size one.
    Squeezed(usize, usize, usize, usize),
}

/// A tensor of a converted checkpoint.
pub struct Entry {
    /// Its name.
    pub name: String,
    /// Where it comes from.
    pub source: Source,
}

/// The entries of a plan, as a statement about it sees them.
pub open spec fn entries(v: Seq<Entry>) -> Seq<(Seq<char>, Source)> {
    Seq::new(v.len(), |i: int| (v[i].name@, v[i].source))
}

/// Appends an entry.
fn put(v: &mut Vec<Entry>, name: String, source: Source)
    ensures
        entries(final(v)@) == entries(old(v)@).push((name@, source)),
{
    let ghost before = entries(v@);
    v.push(Entry { name, source });
    assert(entries(v@) =~= before.push((name@, source)));
}

/// The view of an optional text.
pub open spec fn text_of(s: Option<&str>) -> Option<Seq<char>> {
    match s {
        Some(t) => Some(t@),
        None => None,
    }
}

/// The place of a name.
fn position(names: &Vec<String>, name: &str) -> (r: Option<usize>)
    requires
        scan::texts(names@).no_duplicates(),
    ensures
        r is Some <==> scan::texts(names@).contains(name@),
        r is Some ==> r->0 < names.len() && scan::texts(names@)[r->0 as int] == name@
            && scan::texts(names@).index_of(name@) == r->0,
{
    let ghost all = scan::texts(names@);
    let mut i: usize = 0;
    while i < names.len()
        invariant
            all == scan::texts(names@),
            all.no_duplicates(),
            i <= names.len(),
            forall|k: int| 0 <= k < i ==> #[trigger] all[k] != name@,
        decreases names.len() - i,
    {
        assert(all[i as int] == names@[i as int]@);
        if scan::same(names[i].as_str(), name) {
            assert(all.contains(name@));
            return Some(i);
        }
        i = i + 1;
    }
    None
}

/// What the names `names` come to of which only those under `prefix` are kept, without it, and
/// none under `exclude`.
pub open spec fn selected(
    names: Seq<Seq<char>>,
    prefix: Option<Seq<char>>,
    exclude: Option<Seq<char>>,
) -> Seq<(Seq<char>, Source)>
    decreases names.len(),
{
    if names.len() == 0 {
        seq![]
    } else {
        let front = selected(names.drop_last(), prefix, exclude);
        let n = names.last();
        let from = Source::Kept((names.len() - 1) as usize);
        if exclude is Some && scan::begins(n, exclude->0) {
            front
        } else {
            match prefix {
                Some(p) => if scan::begins(n, p) {
                    front.push((n.skip(p.len() as int), from))
                } else {
                    front
                },
                None => front.push((n, from)),
            }
        }
    }
}

/// Selects tensors by prefix.
pub fn select(names: &Vec<String>, prefix: Option<&str>, exclude: Option<&str>) -> (v: Vec<Entry>)
    ensures
        entries(v@) == selected(scan::texts(names@), text_of(prefix), text_of(exclude)),
{
    let ghost all = scan::texts(names@);
    let mut v: Vec<Entry> = Vec::new();
    let mut i: usize = 0;
    assert(entries(v@) =~= selected(all.take(0), text_of(prefix), text_of(exclude)));
    while i < names.len()
        invariant
            all == scan::texts(names@),
            i <= names.len(),
            entries(v@) == selected(all.take(i as int), text_of(prefix), text_of(exclude)),
        decreases names.len() - i,
    {
        assert(all.take(i + 1).drop_last() =~= all.take(i as int));
        let n: &str = names[i].as_str();
        assert(all.take(i + 1).last() == n@);
        let out: bool = match exclude {
            Some(x) => scan::starts_with(n, x),
            None => false,
        };
        if !out {
            match prefix {
                Some(p) => {
                    if let Some(rest) = scan::strip_prefix(n, p) {
                        put(&mut v, rest, Source::Kept(i));
                    }
                },
                None => {
                    put(&mut v, String::from_str(n), Source::Kept(i));
                },
            }
        }
        i = i + 1;
    }
    assert(all.take(i as int) =~= all);
    v
}

/// Selects the tensors of a pickled checkpoint by prefix; there have to be any.
pub fn select_pickled(names: &Vec<String>, prefix: Option<&str>) -> (r: Option<Vec<Entry>>)
    ensures
        ({
            let want = selected(scan::texts(names@), text_of(prefix), None);
            &&& r is Some <==> want.len() > 0
            &&& r is Some ==> entries(r->0@) == want
        }),
{
    let v: Vec<Entry> = select(names, prefix, None);
    assert(entries(v@).len() == v.len());
    if v.len() == 0 {
        None
    } else {
        Some(v)
    }
}

/// What the names `names` come to of which only those under `prefix` are kept, with it.
pub open spec fn under(names: Seq<Seq<char>>, prefix: Seq<char>) -> Seq<(Seq<char>, Source)>
    decreases names.len(),
{
    if names.len() == 0 {
        seq![]
    } else {
        let front = under(names.drop_last(), prefix);
        if scan::begins(names.last(), prefix) {
            front.push((names.last(), Source::Kept((names.len() - 1) as usize)))
        } else {
            front
        }
    }
}

/// Selects tensors by prefix and keeps it.
pub fn select_under(names: &Vec<String>, prefix: &str) -> (v: Vec<Entry>)
    ensures
        entries(v@) == under(scan::texts(names@), prefix@),
{
    let ghost all = scan::texts(names@);
    let mut v: Vec<Entry> = Vec::new();
    let mut i: usize = 0;
    assert(entries(v@) =~= under(all.take(0), prefix@));
    while i < names.len()
        invariant
            all == scan::texts(names@),
            i <= names.len(),
            entries(v@) == under(all.take(i as int), prefix@),
        decreases names.len() - i,
    {
        assert(all.take(i + 1).drop_last() =~= all.take(i as int));
        let n: &str = names[i].as_str();
        assert(all.take(i + 1).last() == n@);
        if scan::starts_with(n, prefix) {
            put(&mut v, String::from_str(n), Source::Kept(i));
        }
        i = i + 1;
    }
    assert(all.take(i as int) =~= all);
    v
}

/// Whether a name of the list starts with `module.`.
pub open spec fn wrapped(names: Seq<Seq<char>>) -> bool {
    exists|i: int| 0 <= i < names.len() && #[trigger] scan::begins(names[i], "module."@)
}

/// The name under which the loaders look for `name`, of the names `names`: a published checkpoint
/// has `module.` before every name, one that was tuned on a single device has it before none.
pub open spec fn loader_name(names: Seq<Seq<char>>, tuned: bool, name: Seq<char>) -> Seq<char> {
    if tuned && !wrapped(names) {
        "module."@ + name
    } else {
        name
    }
}

/// The names under which the loaders look for the tensors.
pub fn loader_names(names: &Vec<String>, tuned: bool) -> (v: Vec<String>)
    ensures
        v.len() == names.len(),
        forall|i: int|
            0 <= i < v.len() ==> (#[trigger] v@[i])@ == loader_name(
                scan::texts(names@),
                tuned,
                names@[i]@,
            ),
{
    let ghost all = scan::texts(names@);
    let mut found: bool = false;
    let mut i: usize = 0;
    while i < names.len()
        invariant
            all == scan::texts(names@),
            i <= names.len(),
            found <==> exists|k: int| 0 <= k < i && #[trigger] scan::begins(all[k], "module."@),
        decreases names.len() - i,
    {
        assert(all[i as int] == names@[i as int]@);
        if scan::starts_with(names[i].as_str(), "module.") {
            assert(scan::begins(all[i as int], "module."@));
            found = true;
        }
        i = i + 1;
    }
    assert(found == wrapped(all));
    let mut v: Vec<String> = Vec::new();
    let mut k: usize = 0;
    while k < names.len()
        invariant
            all == scan::texts(names@),
            found == wrapped(all),
            k <= names.len(),
            v.len() == k,
            forall|j: int|
                0 <= j < k ==> (#[trigger] v@[j])@ == loader_name(all, tuned, names@[j]@),
        decreases names.len() - k,
    {
        if tuned && !found {
            let mut s: String = String::from_str("module.");
            s.append(names[k].as_str());
            v.push(s);
        } else {
            v.push(names[k].clone());
        }
        k = k + 1;
    }
    v
}

/// The names of entries.
pub open spec fn names_of(v: Seq<(Seq<char>, Source)>) -> Seq<Seq<char>> {
    Seq::new(v.len(), |i: int| v[i].0)
}

/// Entries under the names that the loaders look for.
pub open spec fn for_loaders(v: Seq<(Seq<char>, Source)>, tuned: bool) -> Seq<
    (Seq<char>, Source),
> {
    Seq::new(v.len(), |i: int| (loader_name(names_of(v), tuned, v[i].0), v[i].1))
}

/// Puts entries under the names that the loaders look for.
pub fn rename_for_loaders(v: &Vec<Entry>, tuned: bool) -> (out: Vec<Entry>)
    ensures
        entries(out@) == for_loaders(entries(v@), tuned),
{
    let ghost all = entries(v@);
    let mut names: Vec<String> = Vec::new();
    let mut i: usize = 0;
    while i < v.len()
        invariant
            i <= v.len(),
            names.len() == i,
            forall|k: int| 0 <= k < i ==> (#[trigger] names@[k])@ == v@[k].name@,
        decreases v.len() - i,
    {
        names.push(v[i].name.clone());
        i = i + 1;
    }
    let renamed: Vec<String> = loader_names(&names, tuned);
    assert(scan::texts(names@) =~= names_of(all));
    let mut out: Vec<Entry> = Vec::new();
    let mut k: usize = 0;
    assert(entries(out@) =~= for_loaders(all, tuned).take(0));
    while k < v.len()
        invariant
            k <= v.len(),
            all == entries(v@),
            names.len() == v.len(),
            renamed.len() == v.len(),
            scan::texts(names@) == names_of(all),
            forall|j: int| 0 <= j < names.len() ==> (#[trigger] names@[j])@ == v@[j].name@,
            forall|j: int|
                0 <= j < renamed.len() ==> (#[trigger] renamed@[j])@ == loader_name(
                    names_of(all),
                    tuned,
                    names@[j]@,
                ),
            entries(out@) == for_loaders(all, tuned).take(k as int),
        decreases v.len() - k,
    {
        put(&mut out, renamed[k].clone(), v[k].source);
        assert(names@[k as int]@ == v@[k as int].name@);
        assert(for_loaders(all, tuned).take(k + 1) =~= for_loaders(all, tuned).take(k as int).push(
            for_loaders(all, tuned)[k as int],
        ));
        k = k + 1;
    }
    assert(for_loaders(all, tuned).take(k as int) =~= for_loaders(all, tuned));
    out
}

/// A tuned checkpoint loads as the published one does: afterwards some name starts with
/// `module.`, wherever there is a name at all.
pub proof fn law_tuned_checkpoints_are_wrapped(names: Seq<Seq<char>>)
    requires
        names.len() > 0,
    ensures
        wrapped(Seq::new(names.len(), |i: int| loader_name(names, true, names[i]))),
{
    let out = Seq::new(names.len(), |i: int| loader_name(names, true, names[i]));
    if wrapped(names) {
        let i = choose|i: int|
            0 <= i < names.len() && #[trigger] scan::begins(names[i], "module."@);
        assert(out[i] == names[i]);
        assert(scan::begins(out[i], "module."@));
    } else {
        assert(out[0].subrange(0, "module."@.len() as int) =~= "module."@);
        assert(scan::begins(out[0], "module."@));
    }
}

/// A name without the eight characters of `weight_g` or `weight_v` at its end.
pub open spec fn stem(name: Seq<char>) -> Seq<char> {
    name.take(name.len() - 8)
}

/// Whether `name` is that of a magnitude.
pub open spec fn magnitude(name: Seq<char>) -> bool {
    scan::ends(name, "weight_g"@)
}

/// The name of the direction that belongs to the magnitude `name`.
pub open spec fn direction(name: Seq<char>) -> Seq<char> {
    stem(name) + "weight_v"@
}

/// Whether the magnitude at place `i` has no direction.
pub open spec fn lonely(names: Seq<Seq<char>>, i: int) -> bool {
    magnitude(names[i]) && !names.contains(direction(names[i]))
}

/// Whether `name` is folded: it is a magnitude, or a direction whose magnitude is there.
pub open spec fn goes(names: Seq<Seq<char>>, name: Seq<char>) -> bool {
    magnitude(name) || (scan::ends(name, "weight_v"@) && names.contains(stem(name) + "weight_g"@))
}

/// The tensors that the first `n` magnitudes are folded into.
pub open spec fn folded(names: Seq<Seq<char>>, n: int) -> Seq<(Seq<char>, Source)>
    decreases n,
{
    if n <= 0 {
        seq![]
    } else {
        let front = folded(names, n - 1);
        let name = names[n - 1];
        if magnitude(name) {
            front.push(
                (
                    stem(name) + "weight"@,
                    Source::Folded((n - 1) as usize, names.index_of(direction(name)) as usize, 0),
                ),
            )
        } else {
            front
        }
    }
}

/// The tensors among the first `n` that are not folded.
pub open spec fn unfolded(names: Seq<Seq<char>>, n: int) -> Seq<(Seq<char>, Source)>
    decreases n,
{
    if n <= 0 {
        seq![]
    } else {
        let front = unfolded(names, n - 1);
        if goes(names, names[n - 1]) {
            front
        } else {
            front.push((names[n - 1], Source::Kept((n - 1) as usize)))
        }
    }
}

/// The name without its ending.
fn stem_of(name: &str) -> (s: String)
    requires
        name@.len() >= 8,
    ensures
        s@ == stem(name@),
{
    let s: &str = name.substring_char(0, name.unicode_len() - 8);
    assert(s@ =~= stem(name@));
    String::from_str(s)
}

/// Whether a name ends with another text.
fn ends_with(s: &str, p: &str) -> (b: bool)
    ensures
        b == scan::ends(s@, p@),
{
    scan::strip_suffix(s, p).is_some()
}

/// Folds every magnitude with its direction into one tensor and keeps the rest. A magnitude
/// without its direction is an error, which names the first such.
pub fn fold_weight_norm(names: &Vec<String>) -> (r: Result<Vec<Entry>, String>)
    requires
        scan::texts(names@).no_duplicates(),
    ensures
        ({
            let all = scan::texts(names@);
            match r {
                Ok(v) => {
                    &&& forall|i: int| 0 <= i < all.len() ==> !#[trigger] lonely(all, i)
                    &&& entries(v@) == folded(all, all.len() as int) + unfolded(
                        all,
                        all.len() as int,
                    )
                },
                Err(name) => exists|i: int|
                    {
                        &&& 0 <= i < all.len()
                        &&& #[trigger] lonely(all, i)
                        &&& name@ == all[i]
                        &&& forall|k: int| 0 <= k < i ==> !#[trigger] lonely(all, k)
                    },
            }
        }),
{
    proof {
        reveal_strlit("weight_g");
        reveal_strlit("weight_v");
    }
    let ghost all = scan::texts(names@);
    let mut v: Vec<Entry> = Vec::new();
    let mut i: usize = 0;
    assert(entries(v@) =~= folded(all, 0));
    while i < names.len()
        invariant
            "weight_g"@.len() == 8,
            all == scan::texts(names@),
            all.no_duplicates(),
            i <= names.len(),
            forall|k: int| 0 <= k < i ==> !#[trigger] lonely(all, k),
            entries(v@) == folded(all, i as int),
        decreases names.len() - i,
    {
        let n: &str = names[i].as_str();
        assert(all[i as int] == n@);
        if ends_with(n, "weight_g") {
            let base: String = stem_of(n);
            let mut other: String = base.clone();
            other.append("weight_v");
            match position(names, other.as_str()) {
                Some(j) => {
                    let mut name: String = base;
                    name.append("weight");
                    put(&mut v, name, Source::Folded(i, j, 0));
                },
                None => {
                    assert(lonely(all, i as int));
                    return Err(names[i].clone());
                },
            }
        }
        i = i + 1;
    }
    let ghost first = entries(v@);
    let mut k: usize = 0;
    assert(first + unfolded(all, 0) =~= first);
    while k < names.len()
        invariant
            "weight_v"@.len() == 8,
            all == scan::texts(names@),
            all.no_duplicates(),
            k <= names.len(),
            entries(v@) == first + unfolded(all, k as int),
        decreases names.len() - k,
    {
        let n: &str = names[k].as_str();
        assert(all[k as int] == n@);
        let mut gone: bool = ends_with(n, "weight_g");
        if !gone && ends_with(n, "weight_v") {
            let mut other: String = stem_of(n);
            other.append("weight_g");
            gone = position(names, other.as_str()).is_some();
        }
        assert(gone == goes(all, n@));
        if !gone {
            put(&mut v, names[k].clone(), Source::Kept(k));
            assert(entries(v@) =~= first + unfolded(all, k + 1));
        }
        k = k + 1;
    }
    Ok(v)
}

/// A checkpoint without magnitudes is kept as it is.
pub proof fn law_plain_checkpoints_are_kept(names: Seq<Seq<char>>, n: int)
    requires
        0 <= n <= names.len(),
        forall|i: int| 0 <= i < names.len() ==> !magnitude(#[trigger] names[i]),
    ensures
        folded(names, n) == Seq::<(Seq<char>, Source)>::empty(),
        unfolded(names, n) == Seq::new(n as nat, |i: int| (names[i], Source::Kept(i as usize))),
    decreases n,
{
    if n > 0 {
        law_plain_checkpoints_are_kept(names, n - 1);
        let name = names[n - 1];
        reveal_strlit("weight_g");
        reveal_strlit("weight_v");
        if goes(names, name) {
            let g = stem(name) + "weight_g"@;
            let i = choose|i: int| 0 <= i < names.len() && names[i] == g;
            assert(g.subrange(g.len() - 8, g.len() as int) =~= "weight_g"@);
            assert(magnitude(names[i]));
        }
    }
    assert(unfolded(names, n) =~= Seq::new(n as nat, |i: int| (names[i], Source::Kept(i as usize))));
}

/// The value of a decimal digit.
pub open spec fn digit_value(c: char) -> Option<int> {
    if '0' <= c <= '9' {
        Some(c as int - '0' as int)
    } else {
        None
    }
}

/// The number that decimal digits stand for.
pub open spec fn digits_value(s: Seq<char>) -> Option<int>
    decreases s.len(),
{
    if s.len() == 0 {
        Some(0)
    } else {
        match (digits_value(s.drop_last()), digit_value(s.last())) {
            (Some(n), Some(d)) => Some(10 * n + d),
            _ => None,
        }
    }
}

/// The number that a text stands for: digits, at least one, maybe behind a plus sign.
pub open spec fn number(s: Seq<char>) -> Option<int> {
    let d = if s.len() > 0 && s[0] == '+' {
        s.skip(1)
    } else {
        s
    };
    match digits_value(d) {
        Some(n) => if d.len() > 0 && n <= usize::MAX {
            Some(n)
        } else {
            None
        },
        None => None,
    }
}

/// A part of digits stands for no more than the whole.
proof fn lemma_digits_grow(s: Seq<char>, k: int)
    requires
        0 <= k <= s.len(),
        digits_value(s) is Some,
    ensures
        digits_value(s.take(k)) is Some,
        0 <= digits_value(s.take(k))->0 <= digits_value(s)->0,
    decreases s.len(),
{
    if k == s.len() {
        assert(s.take(k) =~= s);
        if k > 0 {
            lemma_digits_grow(s.drop_last(), k - 1);
        }
    } else {
        assert(s.take(k) =~= s.drop_last().take(k));
        lemma_digits_grow(s.drop_last(), k);
    }
}

/// Nothing that starts with a character that is no digit stands for a number.
proof fn lemma_no_digits(s: Seq<char>, k: int)
    requires
        0 <= k <= s.len(),
        digits_value(s.take(k)) is None,
    ensures
        digits_value(s) is None,
    decreases s.len() - k,
{
    if k < s.len() {
        assert(s.take(k + 1).drop_last() =~= s.take(k));
        lemma_no_digits(s, k + 1);
    } else {
        assert(s.take(k) =~= s);
    }
}

/// The number that a text stands for.
pub fn parse_number(s: &str) -> (r: Option<usize>)
    ensures
        r is Some <==> number(s@) is Some,
        r is Some ==> number(s@) == Some(r->0 as int),
{
    let cs: Vec<char> = scan::characters(s);
    let from: usize = if cs.len() > 0 && cs[0] == '+' { 1 } else { 0 };
    let ghost d = s@.skip(from as int);
    assert(s@.skip(0) =~= s@);
    if cs.len() == from {
        return None;
    }
    let mut n: usize = 0;
    let mut i: usize = from;
    assert(d.take(0) =~= Seq::empty());
    while i < cs.len()
        invariant
            cs@ == s@,
            d == s@.skip(from as int),
            from <= i <= cs.len(),
            from < cs.len(),
            number(s@) == (match digits_value(d) {
                Some(n) => if d.len() > 0 && n <= usize::MAX {
                    Some(n)
                } else {
                    None
                },
                None => None,
            }),
            digits_value(d.take(i - from)) == Some(n as int),
        decreases cs.len() - i,
    {
        let c: char = cs[i];
        let ghost k = i - from;
        proof {
            assert(d.take(k + 1).drop_last() =~= d.take(k));
            assert(d.take(k + 1).last() == c);
        }
        if !('0' <= c && c <= '9') {
            proof {
                lemma_no_digits(d, k + 1);
            }
            return None;
        }
        let v: usize = (c as u32 - '0' as u32) as usize;
        if n > (usize::MAX - v) / 10 {
            proof {
                assert(10 * n + v > usize::MAX);
                if digits_value(d) is Some {
                    lemma_digits_grow(d, k + 1);
                }
            }
            return None;
        }
        n = 10 * n + v;
        i = i + 1;
    }
    assert(d.take(i - from) =~= d);
    Some(n)
}

/// Layers of the HuBERT encoder that are kept.
pub const HUBERT_LAYERS: usize = 18;

/// The number of the layer that a tensor of the HuBERT encoder belongs to: what stands before the
/// first point behind the prefix of the layers.
pub open spec fn layer_text(name: Seq<char>) -> Option<Seq<char>> {
    if scan::begins(name, "encoder.transformer.layers."@) {
        Some(scan::cut(name.skip("encoder.transformer.layers."@.len() as int), '.').0)
    } else {
        None
    }
}

/// Whether the number of a tensor's layer is none.
pub open spec fn bad_layer(name: Seq<char>) -> bool {
    layer_text(name) is Some && number(layer_text(name)->0) is None
}

/// The parts of the positional convolution.
pub open spec fn pos_conv(part: Seq<char>) -> Seq<char> {
    "encoder.transformer.pos_conv_embed.conv."@ + part
}

/// Whether a tensor of the HuBERT encoder is kept as it is: it belongs to one of the first layers
/// or to none, is no part of the positional convolution's weight and no part of the norm that is
/// never applied.
pub open spec fn hubert_keeps(name: Seq<char>) -> bool {
    &&& name != pos_conv("weight_g"@)
    &&& name != pos_conv("weight_v"@)
    &&& name != pos_conv("weight"@)
    &&& name != "encoder.transformer.layer_norm.weight"@
    &&& name != "encoder.transformer.layer_norm.bias"@
    &&& layer_text(name) is Some ==> number(layer_text(name)->0)->0 < 18
}

/// The tensors of the HuBERT encoder among the first `n` that are kept as they are.
pub open spec fn hubert_kept(names: Seq<Seq<char>>, n: int) -> Seq<(Seq<char>, Source)>
    decreases n,
{
    if n <= 0 {
        seq![]
    } else {
        let front = hubert_kept(names, n - 1);
        if hubert_keeps(names[n - 1]) {
            front.push((names[n - 1], Source::Kept((n - 1) as usize)))
        } else {
            front
        }
    }
}

/// Why the HuBERT encoder cannot be converted.
pub enum HubertError {
    /// The magnitude of the positional convolution is missing.
    MissingMagnitude,
    /// The direction of the positional convolution is missing.
    MissingDirection,
    /// The layer of the tensor with this name is no number.
    Layer(String),
}

/// The plan of the HuBERT encoder: the positional convolution folded along its kernel, the first
/// layers, and what belongs to none.
pub fn hubert_plan(names: &Vec<String>) -> (r: Result<Vec<Entry>, HubertError>)
    requires
        scan::texts(names@).no_duplicates(),
    ensures
        ({
            let all = scan::texts(names@);
            let g = pos_conv("weight_g"@);
            let v = pos_conv("weight_v"@);
            &&& r matches Ok(out) ==> {
                &&& all.contains(g)
                &&& all.contains(v)
                &&& forall|i: int| 0 <= i < all.len() ==> !bad_layer(#[trigger] all[i])
                &&& entries(out@) == seq![
                    (
                        pos_conv("weight"@),
                        Source::Folded(all.index_of(g) as usize, all.index_of(v) as usize, 2),
                    ),
                ] + hubert_kept(all, all.len() as int)
            }
            &&& r matches Err(e) ==> match e {
                HubertError::MissingMagnitude => !all.contains(g),
                HubertError::MissingDirection => all.contains(g) && !all.contains(v),
                HubertError::Layer(n) => all.contains(g) && all.contains(v) && all.contains(n@)
                    && bad_layer(n@),
            }
        }),
{
    let ghost all = scan::texts(names@);
    let base: &str = "encoder.transformer.pos_conv_embed.conv.";
    let name_g: String = crate::text::joined(base, "weight_g");
    let name_v: String = crate::text::joined(base, "weight_v");
    let name_w: String = crate::text::joined(base, "weight");
    let g: usize = match position(names, name_g.as_str()) {
        Some(i) => i,
        None => {
            return Err(HubertError::MissingMagnitude);
        },
    };
    let v: usize = match position(names, name_v.as_str()) {
        Some(i) => i,
        None => {
            return Err(HubertError::MissingDirection);
        },
    };
    let mut out: Vec<Entry> = Vec::new();
    put(&mut out, name_w.clone(), Source::Folded(g, v, 2));
    let ghost first = entries(out@);
    assert(first =~= seq![(pos_conv("weight"@), Source::Folded(g, v, 2))]);
    let mut i: usize = 0;
    assert(first + hubert_kept(all, 0) =~= first);
    while i < names.len()
        invariant
            all == scan::texts(names@),
            all.contains(pos_conv("weight_g"@)),
            all.contains(pos_conv("weight_v"@)),
            name_g@ == pos_conv("weight_g"@),
            name_v@ == pos_conv("weight_v"@),
            name_w@ == pos_conv("weight"@),
            i <= names.len(),
            forall|k: int| 0 <= k < i ==> !bad_layer(#[trigger] all[k]),
            entries(out@) == first + hubert_kept(all, i as int),
        decreases names.len() - i,
    {
        let n: &str = names[i].as_str();
        assert(all[i as int] == n@);
        let mut keep: bool = true;
        if let Some(rest) = scan::strip_prefix(n, "encoder.transformer.layers.") {
            let (idx, _) = scan::cut_at(rest.as_str(), '.');
            match parse_number(idx) {
                Some(k) => {
                    keep = k < HUBERT_LAYERS;
                },
                None => {
                    assert(all.contains(n@));
                    return Err(HubertError::Layer(names[i].clone()));
                },
            }
        }
        if scan::same(n, "encoder.transformer.layer_norm.weight") || scan::same(
            n,
            "encoder.transformer.layer_norm.bias",
        ) || scan::same(n, name_g.as_str()) || scan::same(n, name_v.as_str()) || scan::same(
            n,
            name_w.as_str(),
        ) {
            keep = false;
        }
        assert(keep == hubert_keeps(n@));
        if keep {
            put(&mut out, names[i].clone(), Source::Kept(i));
            assert(entries(out@) =~= first + hubert_kept(all, i + 1));
        }
        i = i + 1;
    }
    Ok(out)
}

/// Whether a tensor of the tokenizer is kept as it is: it belongs neither to the decoder nor to
/// the quantizer, and its name is none of those that are given to the quantizer's parts.
pub open spec fn repcodec_keeps(name: Seq<char>) -> bool {
    &&& !scan::begins(name, "decoder."@)
    &&& !scan::begins(name, "quantizer.quantizers.0."@)
    &&& name != "quantizer.in_project.weight"@
    &&& name != "quantizer.in_project.bias"@
    &&& name != "quantizer.codebook.weight"@
}

/// The tensors of the tokenizer among the first `n` that are kept as they are.
pub open spec fn repcodec_kept(names: Seq<Seq<char>>, n: int) -> Seq<(Seq<char>, Source)>
    decreases n,
{
    if n <= 0 {
        seq![]
    } else {
        let front = repcodec_kept(names, n - 1);
        if repcodec_keeps(names[n - 1]) {
            front.push((names[n - 1], Source::Kept((n - 1) as usize)))
        } else {
            front
        }
    }
}

/// The parts of the quantizer in the published checkpoint: magnitude, direction and bias of the
/// projection, and the codebook.
pub open spec fn quantizer_part(k: int) -> Seq<char> {
    if k == 0 {
        "quantizer.quantizers.0.in_project.weight_g"@
    } else if k == 1 {
        "quantizer.quantizers.0.in_project.weight_v"@
    } else if k == 2 {
        "quantizer.quantizers.0.in_project.bias"@
    } else {
        "quantizer.quantizers.0.codebook.weight"@
    }
}

/// The part of the quantizer with the given number.
fn quantizer_name(k: usize) -> (s: &'static str)
    ensures
        s@ == quantizer_part(k as int),
{
    if k == 0 {
        "quantizer.quantizers.0.in_project.weight_g"
    } else if k == 1 {
        "quantizer.quantizers.0.in_project.weight_v"
    } else if k == 2 {
        "quantizer.quantizers.0.in_project.bias"
    } else {
        "quantizer.quantizers.0.codebook.weight"
    }
}

/// The plan of the tokenizer: the projection of the quantizer folded, its parts under shorter
/// names, and the encoder. A part that is missing is an error, which names the first by number.
pub fn repcodec_plan(names: &Vec<String>) -> (r: Result<Vec<Entry>, usize>)
    requires
        scan::texts(names@).no_duplicates(),
    ensures
        ({
            let all = scan::texts(names@);
            match r {
                Ok(out) => {
                    &&& forall|k: int| 0 <= k < 4 ==> all.contains(#[trigger] quantizer_part(k))
                    &&& entries(out@) == repcodec_kept(all, all.len() as int) + seq![
                        (
                            "quantizer.in_project.weight"@,
                            Source::Squeezed(
                                all.index_of(quantizer_part(0)) as usize,
                                all.index_of(quantizer_part(1)) as usize,
                                0,
                                2,
                            ),
                        ),
                        (
                            "quantizer.in_project.bias"@,
                            Source::Kept(all.index_of(quantizer_part(2)) as usize),
                        ),
                        (
                            "quantizer.codebook.weight"@,
                            Source::Kept(all.index_of(quantizer_part(3)) as usize),
                        ),
                    ]
                },
                Err(k) => {
                    &&& k < 4
                    &&& !all.contains(quantizer_part(k as int))
                    &&& forall|j: int| 0 <= j < k ==> all.contains(#[trigger] quantizer_part(j))
                },
            }
        }),
{
    let ghost all = scan::texts(names@);
    let mut at: Vec<usize> = Vec::new();
    let mut k: usize = 0;
    while k < 4
        invariant
            all == scan::texts(names@),
            all.no_duplicates(),
            k <= 4,
            at.len() == k,
            forall|j: int|
                0 <= j < k ==> all.contains(#[trigger] quantizer_part(j)) && at@[j]
                    == all.index_of(quantizer_part(j)),
        decreases 4 - k,
    {
        match position(names, quantizer_name(k)) {
            Some(i) => {
                at.push(i);
            },
            None => {
                return Err(k);
            },
        }
        k = k + 1;
    }
    let mut out: Vec<Entry> = Vec::new();
    let mut i: usize = 0;
    assert(entries(out@) =~= repcodec_kept(all, 0));
    while i < names.len()
        invariant
            all == scan::texts(names@),
            i <= names.len(),
            entries(out@) == repcodec_kept(all, i as int),
        decreases names.len() - i,
    {
        let n: &str = names[i].as_str();
        assert(all[i as int] == n@);
        if !scan::starts_with(n, "decoder.") && !scan::starts_with(n, "quantizer.quantizers.0.")
            && !scan::same(n, "quantizer.in_project.weight") && !scan::same(
            n,
            "quantizer.in_project.bias",
        ) && !scan::same(n, "quantizer.codebook.weight") {
            put(&mut out, names[i].clone(), Source::Kept(i));
        }
        i = i + 1;
    }
    let ghost kept = entries(out@);
    put(
        &mut out,
        String::from_str("quantizer.in_project.weight"),
        Source::Squeezed(at[0], at[1], 0, 2),
    );
    put(&mut out, String::from_str("quantizer.in_project.bias"), Source::Kept(at[2]));
    put(&mut out, String::from_str("quantizer.codebook.weight"), Source::Kept(at[3]));
    proof {
        assert(all.contains(quantizer_part(0)) && all.contains(quantizer_part(1)));
        assert(all.contains(quantizer_part(2)) && all.contains(quantizer_part(3)));
        assert(entries(out@) =~= kept + seq![
            (
                "quantizer.in_project.weight"@,
                Source::Squeezed(
                    all.index_of(quantizer_part(0)) as usize,
                    all.index_of(quantizer_part(1)) as usize,
                    0,
                    2,
                ),
            ),
            (
                "quantizer.in_project.bias"@,
                Source::Kept(all.index_of(quantizer_part(2)) as usize),
            ),
            (
                "quantizer.codebook.weight"@,
                Source::Kept(all.index_of(quantizer_part(3)) as usize),
            ),
        ]);
    }
    Ok(out)
}

/// Decimal digits read back as the number that they were written for.
pub proof fn law_digits_read_back(n: nat)
    ensures
        digits_value(crate::text::digits(n)) == Some(n as int),
        crate::text::digits(n).len() > 0,
        crate::text::digits(n)[0] != '+',
        n <= usize::MAX ==> number(crate::text::digits(n)) == Some(n as int),
    decreases n,
{
    let d = crate::text::digits(n);
    if n < 10 {
        reveal_with_fuel(digits_value, 2);
        assert(d.drop_last() =~= Seq::<char>::empty());
        assert(digit_value(d.last()) == Some(n as int));
    } else {
        law_digits_read_back(n / 10);
        let front = crate::text::digits(n / 10);
        assert(d.drop_last() =~= front);
        assert(digit_value(d.last()) == Some((n % 10) as int));
        assert(d[0] == front[0]);
    }
}

/// A selection keeps exactly the names under the prefix that are not under the one to exclude,
/// each without the prefix and with its own place.
pub proof fn law_selection_keeps_what_is_under(
    names: Seq<Seq<char>>,
    prefix: Seq<char>,
    exclude: Option<Seq<char>>,
    i: int,
    x: Seq<char>,
)
    requires
        0 <= i < names.len() <= usize::MAX,
    ensures
        selected(names, Some(prefix), exclude).contains((x, Source::Kept(i as usize))) <==> {
            &&& scan::begins(names[i], prefix)
            &&& x == names[i].skip(prefix.len() as int)
            &&& exclude is Some ==> !scan::begins(names[i], exclude->0)
        },
        selected(names, None, exclude).contains((x, Source::Kept(i as usize))) <==> {
            &&& x == names[i]
            &&& exclude is Some ==> !scan::begins(names[i], exclude->0)
        },
    decreases names.len(),
{
    let front = names.drop_last();
    let entry = (x, Source::Kept(i as usize));
    lemma_selected_from_the_list(front, Some(prefix), exclude, x, i);
    lemma_selected_from_the_list(front, None, exclude, x, i);
    if i < front.len() {
        law_selection_keeps_what_is_under(front, prefix, exclude, i, x);
        assert(front[i] == names[i]);
    }
    let a = selected(front, Some(prefix), exclude);
    let b = selected(front, None, exclude);
    let from = Source::Kept((names.len() - 1) as usize);
    lemma_contains_pushed(a, (names.last().skip(prefix.len() as int), from), entry);
    lemma_contains_pushed(b, (names.last(), from), entry);
}

/// What is contained in a list with one more entry.
proof fn lemma_contains_pushed(
    v: Seq<(Seq<char>, Source)>,
    e: (Seq<char>, Source),
    x: (Seq<char>, Source),
)
    ensures
        v.push(e).contains(x) <==> v.contains(x) || e == x,
{
    let w = v.push(e);
    if v.contains(x) {
        let i = choose|i: int| 0 <= i < v.len() && v[i] == x;
        assert(w[i] == x);
    }
    if e == x {
        assert(w[v.len() as int] == x);
    }
    if w.contains(x) && e != x {
        let i = choose|i: int| 0 <= i < w.len() && w[i] == x;
        assert(v[i] == x);
    }
}

/// A selection has no places beyond its list.
proof fn lemma_selected_from_the_list(
    names: Seq<Seq<char>>,
    prefix: Option<Seq<char>>,
    exclude: Option<Seq<char>>,
    x: Seq<char>,
    i: int,
)
    requires
        0 <= i <= usize::MAX,
        names.len() <= usize::MAX,
    ensures
        i >= names.len() ==> !selected(names, prefix, exclude).contains(
            (x, Source::Kept(i as usize)),
        ),
    decreases names.len(),
{
    if names.len() > 0 {
        let front = names.drop_last();
        lemma_selected_from_the_list(front, prefix, exclude, x, i);
        let v = selected(front, prefix, exclude);
        let from = Source::Kept((names.len() - 1) as usize);
        let entry = (x, Source::Kept(i as usize));
        lemma_contains_pushed(v, (names.last(), from), entry);
        if prefix is Some {
            lemma_contains_pushed(v, (names.last().skip(prefix->0.len() as int), from), entry);
        }
    }
}

/// A magnitude and its direction belong to one weight: without their endings both have the same
/// name, and that with `weight` behind it is the name of what they are folded into.
pub proof fn law_weights_have_their_parts(base: Seq<char>)
    ensures
        stem(base + "weight_g"@) == base,
        stem(base + "weight_v"@) == base,
        magnitude(base + "weight_g"@),
        !magnitude(base + "weight_v"@),
        direction(base + "weight_g"@) == base + "weight_v"@,
{
    reveal_strlit("weight_g");
    reveal_strlit("weight_v");
    let g = base + "weight_g"@;
    let v = base + "weight_v"@;
    assert(g.take(g.len() - 8) =~= base);
    assert(v.take(v.len() - 8) =~= base);
    scan::law_parts_are_found(base, "weight_g"@, Seq::empty());
    assert(v.last() == 'v');
    if magnitude(v) {
        assert(v.subrange(v.len() - 8, v.len() as int).last() == "weight_g"@.last());
    }
}

} // verus!
