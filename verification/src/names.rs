//! Name-Form Deriver: turns one human-readable project name into the four
//! naming conventions the scaffold needs (snake, pascal, title, kebab).
//!
//! A name is tokenized into words on separator bytes (anything that is not an
//! ASCII letter or digit) and on camel-case boundaries: an uppercase byte that
//! follows a lowercase byte or a digit starts a new word, and so does the last
//! uppercase byte of an uppercase run when a lowercase byte follows it.

use vstd::prelude::*;

use crate::ascii::{
    digit_byte, is_digit, is_letter, is_lower, is_upper, is_word_byte, lower_byte, to_lower,
    to_lower_byte, to_upper, to_upper_byte, upper_byte, word_byte,
};

verus! {

/// Whether an uppercase byte `c` begins a new word when the word built so far
/// ends in `prev` and the byte after `c`, if any, is `next`.
pub open spec fn splits_word(prev: u8, c: u8, next: Option<u8>) -> bool {
    is_upper(c) && (is_lower(prev) || is_digit(prev) || (is_upper(prev) && next is Some
        && is_lower(next->0)))
}

/// The words of `s` from position `i` on, given the word built so far (`cur`)
/// and the words already completed (`acc`).
pub open spec fn words_from(s: Seq<u8>, i: int, cur: Seq<u8>, acc: Seq<Seq<u8>>) -> Seq<Seq<u8>>
    decreases s.len() - i,
{
    if i < 0 || i >= s.len() {
        if cur.len() > 0 {
            acc.push(cur)
        } else {
            acc
        }
    } else {
        let c = s[i];
        let next = if i + 1 < s.len() {
            Some(s[i + 1])
        } else {
            None
        };
        if !is_word_byte(c) {
            words_from(
                s,
                i + 1,
                Seq::empty(),
                if cur.len() > 0 {
                    acc.push(cur)
                } else {
                    acc
                },
            )
        } else if cur.len() > 0 && splits_word(cur.last(), c, next) {
            words_from(s, i + 1, seq![c], acc.push(cur))
        } else {
            words_from(s, i + 1, cur.push(c), acc)
        }
    }
}

/// The word sequence of a name, tokenized on separator bytes and camel-case
/// boundaries.
pub open spec fn words(s: Seq<u8>) -> Seq<Seq<u8>> {
    words_from(s, 0, Seq::empty(), Seq::empty())
}

/// One word with every byte lowercased.
pub open spec fn lower_word(w: Seq<u8>) -> Seq<u8> {
    Seq::new(w.len(), |i: int| to_lower(w[i]))
}

/// One word with its first byte uppercased and the rest lowercased.
pub open spec fn cap_word(w: Seq<u8>) -> Seq<u8> {
    Seq::new(
        w.len(),
        |i: int|
            if i == 0 {
                to_upper(w[i])
            } else {
                to_lower(w[i])
            },
    )
}

/// Words joined by a separator.
pub open spec fn join(ws: Seq<Seq<u8>>, sep: Seq<u8>) -> Seq<u8>
    decreases ws.len(),
{
    if ws.len() == 0 {
        Seq::empty()
    } else if ws.len() == 1 {
        ws[0]
    } else {
        join(ws.drop_last(), sep) + sep + ws.last()
    }
}

/// The words, each lowercased or capitalized.
pub open spec fn mapped_words(ws: Seq<Seq<u8>>, cap: bool) -> Seq<Seq<u8>> {
    if cap {
        ws.map_values(|w: Seq<u8>| cap_word(w))
    } else {
        ws.map_values(|w: Seq<u8>| lower_word(w))
    }
}

/// snake_case: lowercased words joined by `_`.
pub open spec fn snake_of(ws: Seq<Seq<u8>>) -> Seq<u8> {
    join(mapped_words(ws, false), seq![95u8])
}

/// PascalCase: capitalized words concatenated.
pub open spec fn pascal_of(ws: Seq<Seq<u8>>) -> Seq<u8> {
    join(mapped_words(ws, true), Seq::empty())
}

/// Title Case: capitalized words joined by a space.
pub open spec fn title_of(ws: Seq<Seq<u8>>) -> Seq<u8> {
    join(mapped_words(ws, true), seq![32u8])
}

/// kebab-case: lowercased words joined by `-`.
pub open spec fn kebab_of(ws: Seq<Seq<u8>>) -> Seq<u8> {
    join(mapped_words(ws, false), seq![45u8])
}

/// The byte sequences held by a vector of words.
pub open spec fn word_views(ws: Seq<Vec<u8>>) -> Seq<Seq<u8>> {
    ws.map_values(|v: Vec<u8>| v@)
}

/// The four naming conventions derived from one project name.
pub struct NamingForms {
    pub snake: Vec<u8>,
    pub pascal: Vec<u8>,
    pub title: Vec<u8>,
    pub kebab: Vec<u8>,
}

/// The mathematical value of a `NamingForms`.
pub struct NamingFormsView {
    pub snake: Seq<u8>,
    pub pascal: Seq<u8>,
    pub title: Seq<u8>,
    pub kebab: Seq<u8>,
}

impl View for NamingForms {
    type V = NamingFormsView;

    open spec fn view(&self) -> NamingFormsView {
        NamingFormsView {
            snake: self.snake@,
            pascal: self.pascal@,
            title: self.title@,
            kebab: self.kebab@,
        }
    }
}

/// The forms that derivation owes for a given name.
pub open spec fn forms_of(s: Seq<u8>) -> NamingFormsView {
    NamingFormsView {
        snake: snake_of(words(s)),
        pascal: pascal_of(words(s)),
        title: title_of(words(s)),
        kebab: kebab_of(words(s)),
    }
}

/// Split a name into its words.
pub fn tokenize(name: &[u8]) -> (r: Vec<Vec<u8>>)
    ensures
        word_views(r@) == words(name@),
{
    let mut acc: Vec<Vec<u8>> = Vec::new();
    let mut cur: Vec<u8> = Vec::new();
    let mut i: usize = 0;
    proof {
        assert(cur@ =~= Seq::<u8>::empty());
        assert(word_views(acc@) =~= Seq::<Seq<u8>>::empty());
    }
    while i < name.len()
        invariant
            i <= name@.len(),
            words(name@) == words_from(name@, i as int, cur@, word_views(acc@)),
        decreases name@.len() - i,
    {
        let ghost s = name@;
        let ghost cur0 = cur@;
        let ghost acc0 = word_views(acc@);
        let c = name[i];
        if !word_byte(c) {
            if cur.len() > 0 {
                acc.push(cur);
                cur = Vec::new();
                proof {
                    assert(word_views(acc@) =~= acc0.push(cur0));
                }
            }
            proof {
                assert(cur@ =~= Seq::<u8>::empty());
                assert(words_from(s, i as int, cur0, acc0) == words_from(
                    s,
                    i as int + 1,
                    Seq::empty(),
                    word_views(acc@),
                ));
            }
        } else {
            let split = cur.len() > 0 && upper_byte(c) && {
                let p = cur[cur.len() - 1];
                lower_byte(p) || digit_byte(p) || (upper_byte(p) && i + 1 < name.len()
                    && lower_byte(name[i + 1]))
            };
            proof {
                let nxt: Option<u8> = if i + 1 < s.len() {
                    Some(s[i as int + 1])
                } else {
                    None
                };
                assert(split == (cur0.len() > 0 && splits_word(cur0.last(), c, nxt)));
            }
            if split {
                acc.push(cur);
                cur = Vec::new();
                cur.push(c);
                proof {
                    assert(word_views(acc@) =~= acc0.push(cur0));
                    assert(cur@ =~= seq![c]);
                    assert(words_from(s, i as int, cur0, acc0) == words_from(
                        s,
                        i as int + 1,
                        seq![c],
                        acc0.push(cur0),
                    ));
                }
            } else {
                cur.push(c);
                proof {
                    assert(cur@ =~= cur0.push(c));
                    assert(words_from(s, i as int, cur0, acc0) == words_from(
                        s,
                        i as int + 1,
                        cur0.push(c),
                        acc0,
                    ));
                }
            }
        }
        i = i + 1;
    }
    proof {
        assert(words(name@) == if cur@.len() > 0 {
            word_views(acc@).push(cur@)
        } else {
            word_views(acc@)
        });
    }
    if cur.len() > 0 {
        let ghost acc0 = word_views(acc@);
        let ghost cur0 = cur@;
        acc.push(cur);
        proof {
            assert(word_views(acc@) =~= acc0.push(cur0));
        }
    }
    acc
}

/// Lowercase every byte of one word.
pub fn lower_word_bytes(w: &[u8]) -> (r: Vec<u8>)
    ensures
        r@ == lower_word(w@),
{
    let mut r: Vec<u8> = Vec::new();
    let mut j: usize = 0;
    while j < w.len()
        invariant
            j <= w@.len(),
            r@ =~= lower_word(w@).take(j as int),
        decreases w@.len() - j,
    {
        r.push(to_lower_byte(w[j]));
        assert(r@ =~= lower_word(w@).take(j as int + 1));
        j = j + 1;
    }
    assert(lower_word(w@).take(w@.len() as int) =~= lower_word(w@));
    r
}

/// Uppercase the first byte of one word and lowercase the rest.
pub fn cap_word_bytes(w: &[u8]) -> (r: Vec<u8>)
    ensures
        r@ == cap_word(w@),
{
    let mut r: Vec<u8> = Vec::new();
    let mut j: usize = 0;
    while j < w.len()
        invariant
            j <= w@.len(),
            r@ =~= cap_word(w@).take(j as int),
        decreases w@.len() - j,
    {
        if j == 0 {
            r.push(to_upper_byte(w[j]));
        } else {
            r.push(to_lower_byte(w[j]));
        }
        assert(r@ =~= cap_word(w@).take(j as int + 1));
        j = j + 1;
    }
    assert(cap_word(w@).take(w@.len() as int) =~= cap_word(w@));
    r
}

/// `join` of one more word appends the separator and the word.
pub proof fn lemma_join_push(ws: Seq<Seq<u8>>, w: Seq<u8>, sep: Seq<u8>)
    ensures
        join(ws.push(w), sep) == if ws.len() == 0 {
            w
        } else {
            join(ws, sep) + sep + w
        },
{
    assert(ws.push(w).drop_last() =~= ws);
    assert(ws.push(w).last() == w);
    if ws.len() == 0 {
        assert(join(ws.push(w), sep) == ws.push(w)[0]);
    }
}

/// Join the words of a name, each lowercased (`cap == false`) or capitalized
/// (`cap == true`), with the given separator.
pub fn join_words(ws: &Vec<Vec<u8>>, sep: &[u8], cap: bool) -> (r: Vec<u8>)
    ensures
        r@ == join(mapped_words(word_views(ws@), cap), sep@),
{
    let ghost m = mapped_words(word_views(ws@), cap);
    let mut r: Vec<u8> = Vec::new();
    let mut j: usize = 0;
    while j < ws.len()
        invariant
            j <= ws@.len(),
            m == mapped_words(word_views(ws@), cap),
            m.len() == ws@.len(),
            r@ == join(m.take(j as int), sep@),
        decreases ws@.len() - j,
    {
        if j > 0 {
            crate::ascii::push_all(&mut r, sep);
        }
        let t = if cap {
            cap_word_bytes(ws[j].as_slice())
        } else {
            lower_word_bytes(ws[j].as_slice())
        };
        crate::ascii::push_all(&mut r, t.as_slice());
        proof {
            assert(m[j as int] == t@);
            assert(m.take(j as int + 1) =~= m.take(j as int).push(m[j as int]));
            lemma_join_push(m.take(j as int), m[j as int], sep@);
        }
        j = j + 1;
    }
    assert(m.take(ws@.len() as int) =~= m);
    r
}

/// Derive the four naming forms of one project name.
///
/// This is total: any name, even one with no letters at all, yields a valid
/// set of forms built from the same underlying word sequence.
pub fn derive_forms(name: &[u8]) -> (r: NamingForms)
    ensures
        r@ == forms_of(name@),
{
    let ws = tokenize(name);
    let underscore: [u8; 1] = [95];
    let space: [u8; 1] = [32];
    let dash: [u8; 1] = [45];
    let empty: [u8; 0] = [];
    let snake = join_words(&ws, underscore.as_slice(), false);
    let pascal = join_words(&ws, empty.as_slice(), true);
    let title = join_words(&ws, space.as_slice(), true);
    let kebab = join_words(&ws, dash.as_slice(), false);
    proof {
        assert(underscore@ =~= seq![95u8]);
        assert(space@ =~= seq![32u8]);
        assert(dash@ =~= seq![45u8]);
        assert(empty@ =~= Seq::<u8>::empty());
    }
    NamingForms { snake, pascal, title, kebab }
}


// ---------------------------------------------------------------------------
// Word content of the derived forms: tokenizing a rendered form recovers the
// words it was built from.
// ---------------------------------------------------------------------------

/// A word as tokenization produces it: non-empty, made of word bytes.
pub open spec fn wf_word(w: Seq<u8>) -> bool {
    w.len() > 0 && forall|j: int| 0 <= j < w.len() ==> is_word_byte(#[trigger] w[j])
}

/// Every word is well-formed.
pub open spec fn wf_words(ws: Seq<Seq<u8>>) -> bool {
    forall|k: int| 0 <= k < ws.len() ==> wf_word(#[trigger] ws[k])
}

/// A word as a rendered form holds it: well-formed and with no uppercase byte
/// after the first, so that tokenization never splits inside it.
pub open spec fn clean_word(w: Seq<u8>) -> bool {
    wf_word(w) && forall|j: int| 1 <= j < w.len() ==> !is_upper(#[trigger] w[j])
}

/// The scan only ever accumulates well-formed words.
proof fn lemma_words_from_wf(s: Seq<u8>, i: int, cur: Seq<u8>, acc: Seq<Seq<u8>>)
    requires
        forall|j: int| 0 <= j < cur.len() ==> is_word_byte(#[trigger] cur[j]),
        wf_words(acc),
    ensures
        wf_words(words_from(s, i, cur, acc)),
    decreases s.len() - i,
{
    if i < 0 || i >= s.len() {
        if cur.len() > 0 {
            assert(wf_words(acc.push(cur)));
        }
    } else {
        let c = s[i];
        let next = if i + 1 < s.len() {
            Some(s[i + 1])
        } else {
            None
        };
        if !is_word_byte(c) {
            if cur.len() > 0 {
                assert(wf_words(acc.push(cur)));
            }
            lemma_words_from_wf(
                s,
                i + 1,
                Seq::empty(),
                if cur.len() > 0 {
                    acc.push(cur)
                } else {
                    acc
                },
            );
        } else if cur.len() > 0 && splits_word(cur.last(), c, next) {
            assert(wf_words(acc.push(cur)));
            lemma_words_from_wf(s, i + 1, seq![c], acc.push(cur));
        } else {
            lemma_words_from_wf(s, i + 1, cur.push(c), acc);
        }
    }
}

/// The words of any name are well-formed.
pub proof fn lemma_words_wf(s: Seq<u8>)
    ensures
        wf_words(words(s)),
{
    lemma_words_from_wf(s, 0, Seq::empty(), Seq::empty());
}

/// Scanning the rest of a clean word never splits it.
proof fn lemma_scan_word_from(s: Seq<u8>, i: int, w: Seq<u8>, acc: Seq<Seq<u8>>, j: int)
    requires
        0 <= i,
        i + w.len() <= s.len(),
        s.subrange(i, i + w.len()) == w,
        clean_word(w),
        1 <= j <= w.len(),
    ensures
        words_from(s, i + j, w.take(j), acc) == words_from(s, i + w.len(), w, acc),
    decreases w.len() - j,
{
    if j == w.len() {
        assert(w.take(j) =~= w);
    } else {
        assert(s.subrange(i, i + w.len())[j] == s[i + j]);
        let c = s[i + j];
        assert(c == w[j]);
        assert(is_word_byte(c));
        assert(!is_upper(c));
        assert(words_from(s, i + j, w.take(j), acc) == words_from(
            s,
            i + j + 1,
            w.take(j).push(c),
            acc,
        ));
        assert(w.take(j).push(c) =~= w.take(j + 1));
        lemma_scan_word_from(s, i, w, acc, j + 1);
    }
}

/// Scanning a clean word from an empty current word accumulates exactly it.
proof fn lemma_scan_word(s: Seq<u8>, i: int, w: Seq<u8>, acc: Seq<Seq<u8>>)
    requires
        0 <= i,
        i + w.len() <= s.len(),
        s.subrange(i, i + w.len()) == w,
        clean_word(w),
    ensures
        words_from(s, i, Seq::empty(), acc) == words_from(s, i + w.len(), w, acc),
{
    assert(s.subrange(i, i + w.len())[0] == s[i]);
    let c = s[i];
    assert(c == w[0]);
    assert(is_word_byte(c));
    assert(words_from(s, i, Seq::empty(), acc) == words_from(s, i + 1, Seq::empty().push(c), acc));
    assert(Seq::empty().push(c) =~= w.take(1));
    lemma_scan_word_from(s, i, w, acc, 1);
}

/// `join` decomposed from the front.
proof fn lemma_join_front(ws: Seq<Seq<u8>>, sep: Seq<u8>)
    requires
        ws.len() >= 2,
    ensures
        join(ws, sep) == ws[0] + sep + join(ws.skip(1), sep),
    decreases ws.len(),
{
    if ws.len() == 2 {
        assert(ws.drop_last() =~= seq![ws[0]]);
        assert(join(ws.drop_last(), sep) == ws[0]);
        assert(ws.skip(1) =~= seq![ws[1]]);
        assert(join(ws.skip(1), sep) == ws[1]);
        assert(ws.last() == ws[1]);
    } else {
        lemma_join_front(ws.drop_last(), sep);
        assert(ws.drop_last()[0] == ws[0]);
        assert(ws.drop_last().skip(1) =~= ws.skip(1).drop_last());
        assert(ws.skip(1).last() == ws.last());
        assert(ws.skip(1).len() >= 2);
        assert(join(ws.skip(1), sep) == join(ws.skip(1).drop_last(), sep) + sep + ws.skip(
            1,
        ).last());
        assert((ws[0] + sep + join(ws.skip(1).drop_last(), sep)) + sep + ws.last() =~= ws[0] + sep
            + (join(ws.skip(1).drop_last(), sep) + sep + ws.last()));
    }
}

/// Tokenizing clean words joined by a one-byte separator recovers the words.
proof fn lemma_retokenize_join(
    s: Seq<u8>,
    i: int,
    ws: Seq<Seq<u8>>,
    sep: Seq<u8>,
    acc: Seq<Seq<u8>>,
)
    requires
        0 <= i <= s.len(),
        s.skip(i) == join(ws, sep),
        ws.len() >= 1,
        forall|k: int| 0 <= k < ws.len() ==> clean_word(#[trigger] ws[k]),
        sep.len() == 1,
        !is_word_byte(sep[0]),
    ensures
        words_from(s, i, Seq::empty(), acc) == acc + ws,
    decreases ws.len(),
{
    let w0 = ws[0];
    if ws.len() == 1 {
        assert(join(ws, sep) == w0);
        assert(s.skip(i).len() == s.len() - i);
        assert(i + w0.len() == s.len());
        assert(s.subrange(i, i + w0.len()) =~= w0) by {
            assert(forall|j: int| 0 <= j < w0.len() ==> #[trigger] s.skip(i)[j] == s[i + j]);
        }
        lemma_scan_word(s, i, w0, acc);
        assert(words_from(s, i + w0.len(), w0, acc) == acc.push(w0));
        assert(acc.push(w0) =~= acc + ws);
    } else {
        lemma_join_front(ws, sep);
        assert(s.skip(i).len() == s.len() - i);
        assert(forall|j: int| 0 <= j < s.len() - i ==> #[trigger] s.skip(i)[j] == s[i + j]);
        assert(s.subrange(i, i + w0.len()) =~= w0) by {
            assert(forall|j: int|
                0 <= j < w0.len() ==> (w0 + sep + join(ws.skip(1), sep))[j] == w0[j]);
        }
        lemma_scan_word(s, i, w0, acc);
        let p = i + w0.len();
        assert(s[p] == sep[0]) by {
            assert((w0 + sep + join(ws.skip(1), sep))[w0.len() as int] == sep[0]);
        }
        assert(p < s.len());
        assert(words_from(s, p, w0, acc) == words_from(s, p + 1, Seq::empty(), acc.push(w0)));
        assert(s.skip(p + 1) =~= join(ws.skip(1), sep)) by {
            assert(forall|j: int|
                0 <= j < s.len() - p - 1 ==> #[trigger] s.skip(p + 1)[j] == s[p + 1 + j]);
            assert(forall|j: int|
                0 <= j < join(ws.skip(1), sep).len() ==> (w0 + sep + join(ws.skip(1), sep))[w0.len()
                    + 1 + j] == join(ws.skip(1), sep)[j]);
        }
        lemma_retokenize_join(s, p + 1, ws.skip(1), sep, acc.push(w0));
        assert(acc.push(w0) + ws.skip(1) =~= acc + ws);
    }
}


/// Lower- or capitalizing the words keeps them well-formed, keeps each length,
/// and leaves no uppercase byte after a word's first.
proof fn lemma_mapped_clean(ws: Seq<Seq<u8>>, cap: bool)
    requires
        wf_words(ws),
    ensures
        mapped_words(ws, cap).len() == ws.len(),
        forall|k: int|
            0 <= k < ws.len() ==> clean_word(#[trigger] mapped_words(ws, cap)[k]) && mapped_words(
                ws,
                cap,
            )[k].len() == ws[k].len(),
{
    assert forall|k: int|
        0 <= k < ws.len() implies clean_word(#[trigger] mapped_words(ws, cap)[k]) && mapped_words(
        ws,
        cap,
    )[k].len() == ws[k].len() by {
        let w = ws[k];
        let t = mapped_words(ws, cap)[k];
        assert(wf_word(w));
        assert(t.len() == w.len());
        assert(forall|j: int| 0 <= j < t.len() ==> is_word_byte(#[trigger] t[j]));
        assert(forall|j: int| 1 <= j < t.len() ==> !is_upper(#[trigger] t[j]));
    }
}

/// Applying a second casing pass is the same as applying it once.
proof fn lemma_mapped_mapped(ws: Seq<Seq<u8>>, c1: bool, c2: bool)
    ensures
        mapped_words(mapped_words(ws, c1), c2) == mapped_words(ws, c2),
{
    let a = mapped_words(ws, c1);
    let b = mapped_words(a, c2);
    let c = mapped_words(ws, c2);
    assert forall|k: int| 0 <= k < ws.len() implies #[trigger] b[k] =~= c[k] by {
        let w = ws[k];
        assert(b[k].len() == w.len());
        assert(c[k].len() == w.len());
        assert(forall|j: int| 0 <= j < w.len() ==> #[trigger] b[k][j] == c[k][j]);
    }
    assert(b =~~= c);
}

/// Tokenizing concatenated capitalized words recovers the words, as long as a
/// word is pending: its last byte is lowercase or a digit, and the uppercase
/// first byte of the next word starts a new word.
proof fn lemma_retokenize_concat(
    s: Seq<u8>,
    i: int,
    cs: Seq<Seq<u8>>,
    acc: Seq<Seq<u8>>,
    cur: Seq<u8>,
)
    requires
        0 <= i <= s.len(),
        s.skip(i) == join(cs, Seq::empty()),
        cs.len() >= 1,
        forall|k: int|
            0 <= k < cs.len() ==> clean_word(#[trigger] cs[k]) && cs[k].len() >= 2 && is_upper(
                cs[k][0],
            ),
        cur.len() > 0,
        is_word_byte(cur.last()),
        !is_upper(cur.last()),
    ensures
        words_from(s, i, cur, acc) == acc.push(cur) + cs,
    decreases cs.len(),
{
    let w0 = cs[0];
    assert(s.skip(i).len() == s.len() - i);
    assert(forall|j: int| 0 <= j < s.len() - i ==> #[trigger] s.skip(i)[j] == s[i + j]);
    if cs.len() == 1 {
        assert(join(cs, Seq::empty()) == w0);
    } else {
        lemma_join_front(cs, Seq::empty());
        assert(w0 + Seq::<u8>::empty() + join(cs.skip(1), Seq::empty()) =~= w0 + join(
            cs.skip(1),
            Seq::empty(),
        ));
    }
    assert(s.subrange(i, i + w0.len()) =~= w0);
    assert(i < s.len());
    assert(s[i] == w0[0]);
    assert(is_upper(s[i]));
    assert(is_lower(cur.last()) || is_digit(cur.last()));
    assert(words_from(s, i, cur, acc) == words_from(s, i + 1, seq![s[i]], acc.push(cur)));
    assert(seq![s[i]] =~= w0.take(1));
    lemma_scan_word_from(s, i, w0, acc.push(cur), 1);
    let p = i + w0.len();
    if cs.len() == 1 {
        assert(p == s.len());
        assert(words_from(s, p, w0, acc.push(cur)) == acc.push(cur).push(w0));
        assert(acc.push(cur).push(w0) =~= acc.push(cur) + cs);
    } else {
        assert(s.skip(p) =~= join(cs.skip(1), Seq::empty())) by {
            assert(forall|j: int|
                0 <= j < s.len() - p ==> #[trigger] s.skip(p)[j] == s[p + j]);
            assert(forall|j: int|
                0 <= j < join(cs.skip(1), Seq::empty()).len() ==> (w0 + join(
                    cs.skip(1),
                    Seq::empty(),
                ))[w0.len() + j] == join(cs.skip(1), Seq::empty())[j]);
        }
        assert(!is_upper(w0.last()));
        lemma_retokenize_concat(s, p, cs.skip(1), acc.push(cur), w0);
        assert(acc.push(cur).push(w0) + cs.skip(1) =~= acc.push(cur) + cs);
    }
}

/// Tokenizing one casing of the words joined by a one-byte separator recovers
/// exactly those cased words.
proof fn lemma_retokenize_form(ws: Seq<Seq<u8>>, sep: Seq<u8>, cap: bool)
    requires
        wf_words(ws),
        sep.len() == 1,
        !is_word_byte(sep[0]),
    ensures
        words(join(mapped_words(ws, cap), sep)) == mapped_words(ws, cap),
{
    let m = mapped_words(ws, cap);
    lemma_mapped_clean(ws, cap);
    if ws.len() == 0 {
        assert(m =~= Seq::<Seq<u8>>::empty());
        assert(join(m, sep) == Seq::<u8>::empty());
        assert(words(Seq::<u8>::empty()) =~= Seq::<Seq<u8>>::empty());
    } else {
        let s0 = join(m, sep);
        assert(s0.skip(0) =~= s0);
        lemma_retokenize_join(s0, 0, m, sep, Seq::empty());
        assert(Seq::<Seq<u8>>::empty() + m =~= m);
    }
}

/// Every word of the name has at least two bytes and starts with a letter: on
/// such names the pascal form keeps every word boundary.
pub open spec fn pascal_safe(ws: Seq<Seq<u8>>) -> bool {
    forall|k: int| 0 <= k < ws.len() ==> (#[trigger] ws[k]).len() >= 2 && is_letter(ws[k][0])
}

/// The snake, kebab and title forms of any name tokenize back to the name's
/// words, lowercased or capitalized: separators never lose word content.
pub proof fn lemma_separator_forms_word_content(name: Seq<u8>)
    ensures
        words(snake_of(words(name))) == mapped_words(words(name), false),
        words(kebab_of(words(name))) == mapped_words(words(name), false),
        words(title_of(words(name))) == mapped_words(words(name), true),
{
    let ws = words(name);
    lemma_words_wf(name);
    lemma_retokenize_form(ws, seq![95u8], false);
    lemma_retokenize_form(ws, seq![45u8], false);
    lemma_retokenize_form(ws, seq![32u8], true);
}

/// On a pascal-safe name the pascal form, too, tokenizes back to the name's
/// words, capitalized.
pub proof fn lemma_pascal_word_content(name: Seq<u8>)
    requires
        pascal_safe(words(name)),
    ensures
        words(pascal_of(words(name))) == mapped_words(words(name), true),
{
    let ws = words(name);
    lemma_words_wf(name);
    lemma_mapped_clean(ws, true);
    let cs = mapped_words(ws, true);
    assert forall|k: int| 0 <= k < cs.len() implies is_upper(#[trigger] cs[k][0]) by {
        assert(is_letter(ws[k][0]));
        assert(cs[k][0] == to_upper(ws[k][0]));
    }
    if ws.len() == 0 {
        assert(cs =~= Seq::<Seq<u8>>::empty());
        assert(pascal_of(ws) == Seq::<u8>::empty());
        assert(words(Seq::<u8>::empty()) =~= Seq::<Seq<u8>>::empty());
    } else {
        let s0 = pascal_of(ws);
        let w0 = cs[0];
        if cs.len() == 1 {
            assert(join(cs, Seq::empty()) == w0);
            assert(s0.subrange(0, w0.len() as int) =~= w0);
            lemma_scan_word(s0, 0, w0, Seq::empty());
            assert(words_from(s0, w0.len() as int, w0, Seq::empty()) == Seq::empty().push(w0));
            assert(Seq::<Seq<u8>>::empty().push(w0) =~= cs);
        } else {
            lemma_join_front(cs, Seq::empty());
            assert(w0 + Seq::<u8>::empty() + join(cs.skip(1), Seq::empty()) =~= w0 + join(
                cs.skip(1),
                Seq::empty(),
            ));
            assert(s0.subrange(0, w0.len() as int) =~= w0);
            lemma_scan_word(s0, 0, w0, Seq::empty());
            assert(s0.skip(w0.len() as int) =~= join(cs.skip(1), Seq::empty())) by {
                assert(forall|j: int|
                    0 <= j < s0.len() - w0.len() ==> #[trigger] s0.skip(w0.len() as int)[j]
                        == s0[w0.len() + j]);
                assert(forall|j: int|
                    0 <= j < join(cs.skip(1), Seq::empty()).len() ==> (w0 + join(
                        cs.skip(1),
                        Seq::empty(),
                    ))[w0.len() + j] == join(cs.skip(1), Seq::empty())[j]);
            }
            assert(!is_upper(w0.last()));
            lemma_retokenize_concat(s0, w0.len() as int, cs.skip(1), Seq::empty(), w0);
            assert(Seq::<Seq<u8>>::empty().push(w0) + cs.skip(1) =~= cs);
        }
    }
}

/// On a pascal-safe name all four forms carry the same word content: each form
/// tokenizes back to the name's words, and lowercasing the tokenized words of
/// any form yields the same sequence.
pub proof fn lemma_forms_same_word_content(name: Seq<u8>)
    requires
        pascal_safe(words(name)),
    ensures
        words(snake_of(words(name))) == mapped_words(words(name), false),
        words(kebab_of(words(name))) == mapped_words(words(name), false),
        words(title_of(words(name))) == mapped_words(words(name), true),
        words(pascal_of(words(name))) == mapped_words(words(name), true),
        mapped_words(words(snake_of(words(name))), false) == mapped_words(words(name), false),
        mapped_words(words(kebab_of(words(name))), false) == mapped_words(words(name), false),
        mapped_words(words(title_of(words(name))), false) == mapped_words(words(name), false),
        mapped_words(words(pascal_of(words(name))), false) == mapped_words(words(name), false),
        forms_of(pascal_of(words(name))) == forms_of(name),
{
    let ws = words(name);
    lemma_separator_forms_word_content(name);
    lemma_pascal_word_content(name);
    lemma_mapped_mapped(ws, false, false);
    lemma_mapped_mapped(ws, true, false);
    lemma_mapped_mapped(ws, true, true);
}

/// Deriving the forms again from the snake, kebab or title form yields the
/// same forms: derivation is idempotent under re-derivation.
pub proof fn lemma_rederive_idempotent(name: Seq<u8>)
    ensures
        forms_of(snake_of(words(name))) == forms_of(name),
        forms_of(kebab_of(words(name))) == forms_of(name),
        forms_of(title_of(words(name))) == forms_of(name),
{
    let ws = words(name);
    lemma_separator_forms_word_content(name);
    lemma_mapped_mapped(ws, false, false);
    lemma_mapped_mapped(ws, false, true);
    lemma_mapped_mapped(ws, true, false);
    lemma_mapped_mapped(ws, true, true);
}

} // verus!
