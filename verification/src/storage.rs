//! The SQLite catalog: where it lives, how a book's symbol is made from its
//! title, and how a search phrase becomes a full-text query.

use vstd::prelude::*;
use vstd::string::StrSliceExecFns;
use vstd::utf8::encode_utf8;
use crate::model::{LaborMode, Operation, Recipe, Resource, ResourceKind};
use crate::schedule::parts::{bytes_lt, lemma_lex_total, lex_lt};
use crate::syntax::text::str_eq;
use crate::syntax::utf8_facts::lemma_encode_injective;

verus! {

/// The recipe and book catalog kept in one SQLite file.
#[derive(Debug, Clone)]
pub struct SqliteCatalogRepository {
    path: String,
}

impl SqliteCatalogRepository {
    pub closed spec fn spec_path(&self) -> Seq<char> {
        self.path@
    }

    pub fn new(path: &str) -> (r: SqliteCatalogRepository)
        ensures
            r.spec_path() == path@,
    {
        SqliteCatalogRepository { path: path.to_owned() }
    }

    pub fn path(&self) -> (r: &str)
        ensures
            r@ == self.spec_path(),
    {
        self.path.as_str()
    }
}

/// What `str::to_lowercase` makes of a text: its Unicode lowercase mapping.
pub uninterp spec fn lowercase(s: Seq<char>) -> Seq<char>;

/// `str::to_lowercase`.
#[verifier::external_body]
pub(crate) fn to_lowercase(s: &str) -> (r: String)
    ensures
        r@ == lowercase(s@),
{
    s.to_lowercase()
}

pub open spec fn is_ascii_alnum(c: char) -> bool {
    ('0' <= c <= '9') || ('a' <= c <= 'z') || ('A' <= c <= 'Z')
}

/// Reading `cs` left to right: the ASCII letters and digits so far, runs of
/// anything else between two of them written as one `_`; and whether such a
/// run is pending.
pub open spec fn slug_run(cs: Seq<char>) -> (Seq<char>, bool)
    decreases cs.len(),
{
    if cs.len() == 0 {
        (Seq::empty(), false)
    } else {
        let (out, gap) = slug_run(cs.drop_last());
        let c = cs.last();
        if is_ascii_alnum(c) {
            (if gap && out.len() > 0 {
                out.push('_').push(c)
            } else {
                out.push(c)
            }, false)
        } else {
            (out, true)
        }
    }
}

/// The symbol made from a title: lowercased, every run of characters other
/// than ASCII letters and digits collapsed to one `_`, none at either end.
pub open spec fn slug_of(title: Seq<char>) -> Seq<char> {
    slug_run(lowercase(title)).0
}

/// The symbol made from a title.
pub fn slug(value: &str) -> (r: String)
    ensures
        r@ == slug_of(value@),
{
    let lower = to_lowercase(value);
    slug_scan(lower.as_str())
}

/// The symbol made from an already lowercased title: its ASCII letters and
/// digits, every run of other characters between two of them written as
/// one `_`.
pub fn slug_scan(s: &str) -> (r: String)
    ensures
        r@ == slug_run(s@).0,
{
    let n = s.unicode_len();
    let mut out = String::new();
    let mut gap = false;
    let mut i: usize = 0;
    proof {
        assert(s@.subrange(0, 0) =~= Seq::<char>::empty());
        reveal_strlit("_");
    }
    while i < n
        invariant
            n == s@.len(),
            i <= n,
            (out@, gap) == slug_run(s@.subrange(0, i as int)),
            "_"@ == seq!['_'],
        decreases n - i,
    {
        let c = s.get_char(i);
        proof {
            assert(s@.subrange(0, i + 1).drop_last() =~= s@.subrange(0, i as int));
            assert(s@.subrange(0, i + 1).last() == c);
        }
        if ('0' <= c && c <= '9') || ('a' <= c && c <= 'z') || ('A' <= c && c <= 'Z') {
            if gap && out.unicode_len() > 0 {
                out.append("_");
            }
            out.append(s.substring_char(i, i + 1));
            proof {
                assert(s@.subrange(i as int, i + 1) =~= seq![c]);
            }
            gap = false;
        } else {
            gap = true;
        }
        i = i + 1;
    }
    proof {
        assert(s@.subrange(0, n as int) =~= s@);
    }
    out
}

/// Unicode white space, where `str::split_whitespace` splits.
pub open spec fn is_white(c: char) -> bool {
    crate::application::services::is_space(c)
}

/// Reading `cs` left to right: every run of non-space characters written as
/// a quoted phrase with its own quotes removed, phrases joined by ` AND `;
/// and whether a phrase is open.
pub open spec fn match_scan(cs: Seq<char>) -> (Seq<char>, bool)
    decreases cs.len(),
{
    if cs.len() == 0 {
        (Seq::empty(), false)
    } else {
        let (out, inside) = match_scan(cs.drop_last());
        let c = cs.last();
        if is_white(c) {
            (if inside {
                out.push('"')
            } else {
                out
            }, false)
        } else {
            let opened = if inside {
                out
            } else if out.len() > 0 {
                out + " AND \""@
            } else {
                seq!['"']
            };
            (if c == '"' {
                opened
            } else {
                opened.push(c)
            }, true)
        }
    }
}

/// The full-text query for a search phrase: each word quoted, all of them
/// required.
pub open spec fn match_query(text: Seq<char>) -> Seq<char> {
    let (out, inside) = match_scan(text);
    if inside {
        out.push('"')
    } else {
        out
    }
}

pub fn format_match_query(text: &str) -> (r: String)
    ensures
        r@ == match_query(text@),
{
    let n = text.unicode_len();
    let mut out = String::new();
    let mut inside = false;
    let mut i: usize = 0;
    proof {
        assert(text@.subrange(0, 0) =~= Seq::<char>::empty());
        reveal_strlit(" AND \"");
        reveal_strlit("\"");
    }
    while i < n
        invariant
            n == text@.len(),
            i <= n,
            (out@, inside) == match_scan(text@.subrange(0, i as int)),
            " AND \""@ == seq![' ', 'A', 'N', 'D', ' ', '"'],
            "\""@ == seq!['"'],
        decreases n - i,
    {
        let c = text.get_char(i);
        proof {
            assert(text@.subrange(0, i + 1).drop_last() =~= text@.subrange(0, i as int));
            assert(text@.subrange(0, i + 1).last() == c);
        }
        if crate::application::services::space_char(c) {
            if inside {
                out.append("\"");
            }
            inside = false;
        } else {
            if !inside {
                if out.unicode_len() > 0 {
                    out.append(" AND \"");
                } else {
                    out.append("\"");
                }
            }
            if c != '"' {
                out.append(text.substring_char(i, i + 1));
                proof {
                    assert(text@.subrange(i as int, i + 1) =~= seq![c]);
                }
            }
            inside = true;
        }
        i = i + 1;
    }
    proof {
        assert(text@.subrange(0, n as int) =~= text@);
    }
    if inside {
        out.append("\"");
    }
    out
}

// ---------------------------------------------------------------------------
// What a recipe is indexed under for search.
// ---------------------------------------------------------------------------

/// Words joined by single spaces.
pub open spec fn spaced(words: Seq<Seq<char>>) -> Seq<char>
    decreases words.len(),
{
    if words.len() == 0 {
        Seq::empty()
    } else if words.len() == 1 {
        words[0]
    } else {
        spaced(words.drop_last()) + seq![' '] + words.last()
    }
}

/// Resources of these kinds are indexed as ingredients.
pub open spec fn indexed_kind(k: ResourceKind) -> bool {
    k == ResourceKind::Ingredient || k == ResourceKind::Material || k == ResourceKind::Intermediate
}

/// The symbols of the resources indexed as ingredients, in declaration
/// order.
pub open spec fn ingredient_words(rs: Seq<Resource>) -> Seq<Seq<char>>
    decreases rs.len(),
{
    if rs.len() == 0 {
        Seq::empty()
    } else {
        let w = ingredient_words(rs.drop_last());
        if indexed_kind(rs.last().kind) {
            w.push(rs.last().symbol@)
        } else {
            w
        }
    }
}

/// The techniques the operations name, in order.
pub open spec fn technique_words(ops: Seq<Operation>) -> Seq<Seq<char>>
    decreases ops.len(),
{
    if ops.len() == 0 {
        Seq::empty()
    } else {
        let w = technique_words(ops.drop_last());
        match ops.last().technique {
            Some(t) => w.push(t@),
            None => w,
        }
    }
}

/// What an operation adds to a recipe's active time: its longest duration,
/// else its shortest, when it is worked actively; nothing otherwise.
pub open spec fn active_seconds_of(op: Operation) -> int {
    if op.labor == Some(LaborMode::Active) {
        match op.duration_max_seconds {
            Some(m) => m as int,
            None => match op.duration_min_seconds {
                Some(m) => m as int,
                None => 0,
            },
        }
    } else {
        0
    }
}

/// The active time of a sequence of operations, in seconds.
pub open spec fn active_total(ops: Seq<Operation>) -> int
    decreases ops.len(),
{
    if ops.len() == 0 {
        0
    } else {
        active_total(ops.drop_last()) + active_seconds_of(ops.last())
    }
}

pub open spec fn text_or_empty(o: Option<String>) -> Seq<char> {
    match o {
        Some(t) => t@,
        None => Seq::empty(),
    }
}

/// Some resource declares allergen `a`.
pub open spec fn declares_allergen(rs: Seq<Resource>, a: Seq<char>) -> bool {
    exists|r: int| 0 <= r < rs.len() && (#[trigger] rs[r]).allergen is Some && rs[r].allergen->0@ == a
}

/// Strictly increasing in the order of Rust strings: sorted, each text once.
pub open spec fn strictly_sorted(v: Seq<String>) -> bool {
    forall|a: int, b: int|
        #![trigger v[a], v[b]]
        0 <= a && b == a + 1 && b < v.len() ==> lex_lt(encode_utf8(v[a]@), encode_utf8(v[b]@))
}

/// The search index entry of a recipe, and the figure its active-time
/// filter reads.
pub struct IndexFields {
    pub title: String,
    pub ingredients: String,
    pub techniques: String,
    pub notes: String,
    pub section: String,
    /// Sorted, each once.
    pub allergens: Vec<String>,
    /// The active time in seconds, where there is any.
    pub active_seconds: Option<u64>,
}

proof fn lemma_active_prefix(ops: Seq<Operation>, i: int, j: int)
    requires
        0 <= i <= j <= ops.len(),
    ensures
        0 <= active_total(ops.take(i)) <= active_total(ops.take(j)),
    decreases j - i,
{
    if i < j {
        lemma_active_prefix(ops, i, j - 1);
        assert(ops.take(j).drop_last() =~= ops.take(j - 1));
    } else {
        lemma_active_nonneg(ops.take(i));
    }
}

proof fn lemma_active_nonneg(ops: Seq<Operation>)
    ensures
        active_total(ops) >= 0,
    decreases ops.len(),
{
    if ops.len() > 0 {
        lemma_active_nonneg(ops.drop_last());
    }
}

/// `ws` and one more word, spaced.
proof fn lemma_spaced_push(ws: Seq<Seq<char>>, w: Seq<char>)
    ensures
        spaced(ws.push(w)) == if ws.len() == 0 {
            w
        } else {
            spaced(ws) + seq![' '] + w
        },
{
    assert(ws.push(w).drop_last() =~= ws);
}

fn spaced_ingredients(rs: &Vec<Resource>) -> (r: String)
    ensures
        r@ == spaced(ingredient_words(rs@)),
{
    let mut out = String::new();
    let mut any = false;
    let mut i: usize = 0;
    proof {
        reveal_strlit(" ");
        assert(rs@.take(0) =~= Seq::<Resource>::empty());
    }
    while i < rs.len()
        invariant
            i <= rs@.len(),
            out@ == spaced(ingredient_words(rs@.take(i as int))),
            any == (ingredient_words(rs@.take(i as int)).len() > 0),
            " "@ == seq![' '],
        decreases rs@.len() - i,
    {
        let ghost ws = ingredient_words(rs@.take(i as int));
        proof {
            assert(rs@.take(i + 1).drop_last() =~= rs@.take(i as int));
            assert(rs@.take(i + 1).last() == rs@[i as int]);
        }
        let k = rs[i].kind;
        if k == ResourceKind::Ingredient || k == ResourceKind::Material || k == ResourceKind::Intermediate {
            proof {
                lemma_spaced_push(ws, rs@[i as int].symbol@);
            }
            if any {
                out.append(" ");
            }
            out.append(rs[i].symbol.as_str());
            any = true;
        }
        i = i + 1;
    }
    proof {
        assert(rs@.take(rs@.len() as int) =~= rs@);
    }
    out
}

fn spaced_techniques(ops: &Vec<Operation>) -> (r: String)
    ensures
        r@ == spaced(technique_words(ops@)),
{
    let mut out = String::new();
    let mut any = false;
    let mut i: usize = 0;
    proof {
        reveal_strlit(" ");
        assert(ops@.take(0) =~= Seq::<Operation>::empty());
    }
    while i < ops.len()
        invariant
            i <= ops@.len(),
            out@ == spaced(technique_words(ops@.take(i as int))),
            any == (technique_words(ops@.take(i as int)).len() > 0),
            " "@ == seq![' '],
        decreases ops@.len() - i,
    {
        let ghost ws = technique_words(ops@.take(i as int));
        proof {
            assert(ops@.take(i + 1).drop_last() =~= ops@.take(i as int));
            assert(ops@.take(i + 1).last() == ops@[i as int]);
        }
        match &ops[i].technique {
            Some(t) => {
                proof {
                    lemma_spaced_push(ws, t@);
                }
                if any {
                    out.append(" ");
                }
                out.append(t.as_str());
                any = true;
            },
            None => {},
        }
        i = i + 1;
    }
    proof {
        assert(ops@.take(ops@.len() as int) =~= ops@);
    }
    out
}

fn text_or_empty_of(o: &Option<String>) -> (r: String)
    ensures
        r@ == text_or_empty(*o),
{
    match o {
        Some(t) => t.clone(),
        None => String::new(),
    }
}

/// The allergens the resources declare, sorted, each once.
fn sorted_allergens(rs: &Vec<Resource>) -> (r: Vec<String>)
    ensures
        strictly_sorted(r@),
        forall|k: int| 0 <= k < r@.len() ==> declares_allergen(rs@, #[trigger] r@[k]@),
        forall|i: int|
            0 <= i < rs@.len() && (#[trigger] rs@[i]).allergen is Some ==> exists|k: int|
                0 <= k < r@.len() && r@[k]@ == rs@[i].allergen->0@,
{
    let mut out: Vec<String> = Vec::new();
    let mut i: usize = 0;
    while i < rs.len()
        invariant
            i <= rs@.len(),
            strictly_sorted(out@),
            forall|k: int| 0 <= k < out@.len() ==> declares_allergen(rs@, #[trigger] out@[k]@),
            forall|m: int|
                0 <= m < i && (#[trigger] rs@[m]).allergen is Some ==> exists|k: int|
                    0 <= k < out@.len() && out@[k]@ == rs@[m].allergen->0@,
        decreases rs@.len() - i,
    {
        match &rs[i].allergen {
            Some(a) => {
                let mut p: usize = 0;
                while p < out.len() && bytes_lt(out[p].as_str().as_bytes(), a.as_str().as_bytes())
                    invariant
                        p <= out@.len(),
                        forall|m: int| 0 <= m < p ==> lex_lt(encode_utf8((#[trigger] out@[m])@), encode_utf8(a@)),
                    decreases out@.len() - p,
                {
                    p = p + 1;
                }
                let dup = p < out.len() && str_eq(out[p].as_str(), a.as_str());
                if !dup {
                    let ghost old_out = out@;
                    proof {
                        assert(declares_allergen(rs@, a@)) by {
                            assert(rs@[i as int].allergen is Some && rs@[i as int].allergen->0@ == a@);
                        }
                        if p < old_out.len() {
                            assert(!lex_lt(encode_utf8(old_out[p as int]@), encode_utf8(a@)));
                            if encode_utf8(old_out[p as int]@) == encode_utf8(a@) {
                                lemma_encode_injective(old_out[p as int]@, a@);
                            }
                            lemma_lex_total(encode_utf8(old_out[p as int]@), encode_utf8(a@));
                        }
                    }
                    out.insert(p, a.clone());
                    proof {
                        let o2 = out@;
                        assert(o2 == old_out.insert(p as int, o2[p as int]));
                        assert forall|x: int, y: int|
                            #![trigger o2[x], o2[y]]
                            0 <= x && y == x + 1 && y < o2.len() implies lex_lt(
                            encode_utf8(o2[x]@),
                            encode_utf8(o2[y]@),
                        ) by {
                            if y < p {
                                assert(o2[x] == old_out[x] && o2[y] == old_out[y]);
                            } else if y == p {
                                assert(o2[x] == old_out[x]);
                            } else if x == p {
                                assert(o2[y] == old_out[x]);
                            } else {
                                assert(o2[x] == old_out[x - 1] && o2[y] == old_out[y - 1]);
                                assert(old_out[x - 1] == old_out[x - 1] && old_out[x] == old_out[x]);
                            }
                        }
                        assert forall|k: int| 0 <= k < o2.len() implies declares_allergen(rs@, #[trigger] o2[k]@) by {
                            if k < p {
                                assert(o2[k] == old_out[k]);
                            } else if k > p {
                                assert(o2[k] == old_out[k - 1]);
                            }
                        }
                        assert forall|m: int|
                            0 <= m < i + 1 && (#[trigger] rs@[m]).allergen is Some implies exists|k: int|
                                0 <= k < o2.len() && o2[k]@ == rs@[m].allergen->0@ by {
                            if m == i {
                                assert(o2[p as int]@ == a@);
                            } else {
                                let k = choose|k: int| 0 <= k < old_out.len() && old_out[k]@ == rs@[m].allergen->0@;
                                if k < p {
                                    assert(o2[k] == old_out[k]);
                                } else {
                                    assert(o2[k + 1] == old_out[k]);
                                }
                            }
                        }
                    }
                } else {
                    proof {
                        assert(out@[p as int]@ == a@);
                    }
                }
            },
            None => {},
        }
        i = i + 1;
    }
    out
}

/// The text a recipe is indexed under for search: its title, the symbols of
/// its ingredients, the techniques its steps name, its notes and section;
/// its allergens, sorted and each once; and its active time, where it has
/// any.
pub fn extract_index_fields(recipe: &Recipe) -> (r: IndexFields)
    requires
        active_total(recipe.operations@) <= u64::MAX,
    ensures
        r.title@ == recipe.title@,
        r.ingredients@ == spaced(ingredient_words(recipe.resources@)),
        r.techniques@ == spaced(technique_words(recipe.operations@)),
        r.notes@ == text_or_empty(recipe.notes),
        r.section@ == text_or_empty(recipe.section),
        strictly_sorted(r.allergens@),
        forall|k: int|
            0 <= k < r.allergens@.len() ==> declares_allergen(recipe.resources@, #[trigger] r.allergens@[k]@),
        forall|i: int|
            0 <= i < recipe.resources@.len() && (#[trigger] recipe.resources@[i]).allergen is Some
                ==> exists|k: int|
                0 <= k < r.allergens@.len() && r.allergens@[k]@ == recipe.resources@[i].allergen->0@,
        r.active_seconds == if active_total(recipe.operations@) > 0 {
            Some(active_total(recipe.operations@) as u64)
        } else {
            None::<u64>
        },
{
    let ops = &recipe.operations;
    let mut total: u64 = 0;
    let mut i: usize = 0;
    proof {
        assert(ops@.take(0) =~= Seq::<Operation>::empty());
    }
    while i < ops.len()
        invariant
            i <= ops@.len(),
            total == active_total(ops@.take(i as int)),
            active_total(ops@) <= u64::MAX,
        decreases ops@.len() - i,
    {
        proof {
            assert(ops@.take(i + 1).drop_last() =~= ops@.take(i as int));
            assert(ops@.take(i + 1).last() == ops@[i as int]);
            lemma_active_prefix(ops@, i + 1, ops@.len() as int);
            assert(ops@.take(ops@.len() as int) =~= ops@);
            lemma_active_nonneg(ops@.take(i as int));
        }
        let op = &ops[i];
        if op.labor == Some(LaborMode::Active) {
            let seconds: u64 = match op.duration_max_seconds {
                Some(m) => m,
                None => match op.duration_min_seconds {
                    Some(m) => m,
                    None => 0,
                },
            };
            total = total + seconds;
        }
        i = i + 1;
    }
    proof {
        assert(ops@.take(ops@.len() as int) =~= ops@);
    }
    IndexFields {
        title: recipe.title.clone(),
        ingredients: spaced_ingredients(&recipe.resources),
        techniques: spaced_techniques(&recipe.operations),
        notes: text_or_empty_of(&recipe.notes),
        section: text_or_empty_of(&recipe.section),
        allergens: sorted_allergens(&recipe.resources),
        active_seconds: if total > 0 {
            Some(total)
        } else {
            None
        },
    }
}

} // verus!
