//! The chord tokenizer and resolver: an escape-aware character state
//! machine that cuts an input string into raw tokens, and the dialect rules
//! that turn each token into a chord event or an error.

use vstd::prelude::*;
use vstd::string::StrSliceExecFns;
use vstd::string::StringExecFns;

use crate::errors::{KeyEventError, KeyEventErrorModel};
use crate::x11::modifiers::{
    X11Modifier, CONTROL_MASK, META_MASK, MOD1_MASK, MOD5_MASK, SHIFT_MASK,
};

verus! {

/// The dialect a raw token belongs to: dash-joined (`C-S-r`) or
/// parenthesized (`(shift control a)`).
#[derive(Clone, Copy, Debug, PartialEq, Eq, Structural)]
pub enum InputStrType {
    Normal,
    Special,
}

/// Spec-level image of a raw token: its dialect and its accumulated text.
pub struct RawTokenModel {
    pub kind: InputStrType,
    pub text: Seq<char>,
}

/// One raw token as produced by the tokenizer and consumed by the resolver.
#[derive(Clone, Debug, PartialEq, Eq)]
pub struct InputTokenStruct {
    kind: InputStrType,
    raw: String,
}

impl InputTokenStruct {
    /// The token's dialect, at the spec level.
    pub closed spec fn kind_spec(&self) -> InputStrType {
        self.kind
    }

    /// The token's text, at the spec level.
    pub closed spec fn text_spec(&self) -> Seq<char> {
        self.raw@
    }

    /// The spec-level image of this token.
    pub open spec fn model(&self) -> RawTokenModel {
        RawTokenModel { kind: self.kind_spec(), text: self.text_spec() }
    }

    /// The token's dialect.
    pub fn kind(&self) -> (k: InputStrType)
        ensures
            k == self.kind_spec(),
    {
        self.kind
    }

    /// The token's text.
    pub fn as_str(&self) -> (r: &str)
        ensures
            r@ == self.text_spec(),
    {
        self.raw.as_str()
    }
}

// ------------------------------------------------------------------
// The tokenizer, at the spec level.
// ------------------------------------------------------------------
/// The tokenizer's in-flight state: the kind and text of the token being
/// accumulated, and whether the next character is escaped.
pub struct TokState {
    pub kind: InputStrType,
    pub text: Seq<char>,
    pub escape: bool,
}

/// The state at the start of the input and right after each token boundary.
pub open spec fn init_tok_state() -> TokState {
    TokState { kind: InputStrType::Normal, text: Seq::empty(), escape: false }
}

/// Whether a token is in progress: a parenthesized token counts as started
/// from its `(` on, a plain token once it holds text. Boundaries and the end
/// of input emit a token exactly when one has started, so runs of spaces
/// never emit empty tokens.
pub open spec fn tok_started(st: TokState) -> bool {
    st.kind is Special || st.text.len() > 0
}

/// All raw tokens the state machine yields for the remaining input `s`,
/// starting in state `st`. A nesting error is the last element: the session
/// does not continue past it.
pub open spec fn spec_tokenize(s: Seq<char>, st: TokState) -> Seq<
    Result<RawTokenModel, KeyEventErrorModel>,
>
    decreases s.len(),
{
    if s.len() == 0 {
        if tok_started(st) {
            seq![Ok(RawTokenModel { kind: st.kind, text: st.text })]
        } else {
            Seq::empty()
        }
    } else {
        let c = s[0];
        let rest = s.drop_first();
        if st.escape {
            spec_tokenize(rest, TokState { kind: st.kind, text: st.text.push(c), escape: false })
        } else if c == '\\' {
            spec_tokenize(rest, TokState { kind: st.kind, text: st.text, escape: true })
        } else if c == ' ' {
            if tok_started(st) {
                seq![Ok(RawTokenModel { kind: st.kind, text: st.text })] + spec_tokenize(
                    rest,
                    init_tok_state(),
                )
            } else {
                spec_tokenize(rest, init_tok_state())
            }
        } else if c == '(' {
            if st.kind is Normal {
                spec_tokenize(
                    rest,
                    TokState { kind: InputStrType::Special, text: Seq::empty(), escape: false },
                )
            } else {
                seq![Err(KeyEventErrorModel::BareOpenParen)]
            }
        } else if c == ')' {
            if st.kind is Normal {
                seq![Err(KeyEventErrorModel::BareCloseParen)]
            } else {
                spec_tokenize(rest, st)
            }
        } else {
            spec_tokenize(rest, TokState { kind: st.kind, text: st.text.push(c), escape: false })
        }
    }
}

/// The raw tokens of a whole input string.
pub open spec fn spec_tokens(s: Seq<char>) -> Seq<Result<RawTokenModel, KeyEventErrorModel>> {
    spec_tokenize(s, init_tok_state())
}

// ------------------------------------------------------------------
// Splitting, at the spec level.
// ------------------------------------------------------------------
/// Split `s` at every character satisfying `sep`. Separators are dropped;
/// adjacent separators yield empty pieces, so the result always holds at
/// least one piece and joining the pieces with single separators gives `s`
/// back.
pub open spec fn split_on(s: Seq<char>, sep: spec_fn(char) -> bool) -> Seq<Seq<char>>
    decreases s.len(),
{
    if s.len() == 0 {
        seq![Seq::<char>::empty()]
    } else if sep(s[0]) {
        seq![Seq::<char>::empty()] + split_on(s.drop_first(), sep)
    } else {
        let r = split_on(s.drop_first(), sep);
        r.update(0, seq![s[0]] + r[0])
    }
}

/// Splitting yields at least one piece.
pub proof fn lemma_split_on_len(s: Seq<char>, sep: spec_fn(char) -> bool)
    ensures
        split_on(s, sep).len() >= 1,
    decreases s.len(),
{
    if s.len() != 0 {
        lemma_split_on_len(s.drop_first(), sep);
    }
}

/// A string without separators is a single piece.
pub proof fn lemma_split_on_no_sep(s: Seq<char>, sep: spec_fn(char) -> bool)
    requires
        forall|j: int| 0 <= j < s.len() ==> !sep(s[j]),
    ensures
        split_on(s, sep) == seq![s],
    decreases s.len(),
{
    if s.len() == 0 {
        assert(split_on(s, sep) =~~= seq![s]);
    } else {
        lemma_split_on_no_sep(s.drop_first(), sep);
        lemma_split_on_len(s.drop_first(), sep);
        assert(split_on(s, sep) =~~= seq![s]);
    }
}

/// Splitting at the first separator: the piece before it, then the split of
/// what follows it.
pub proof fn lemma_split_on_first_sep(s: Seq<char>, sep: spec_fn(char) -> bool, k: int)
    requires
        0 <= k < s.len(),
        sep(s[k]),
        forall|j: int| 0 <= j < k ==> !sep(s[j]),
    ensures
        split_on(s, sep) == seq![s.subrange(0, k)] + split_on(
            s.subrange(k + 1, s.len() as int),
            sep,
        ),
    decreases k,
{
    if k == 0 {
        assert(s.drop_first() =~= s.subrange(1, s.len() as int));
        assert(split_on(s, sep) =~~= seq![s.subrange(0, 0)] + split_on(
            s.subrange(1, s.len() as int),
            sep,
        ));
    } else {
        lemma_split_on_first_sep(s.drop_first(), sep, k - 1);
        lemma_split_on_len(s.drop_first(), sep);
        assert(s.drop_first().subrange(0, k - 1) =~= s.subrange(1, k));
        assert(s.drop_first().subrange(k, s.len() - 1) =~= s.subrange(k + 1, s.len() as int));
        assert(split_on(s, sep) =~~= seq![s.subrange(0, k)] + split_on(
            s.subrange(k + 1, s.len() as int),
            sep,
        ));
    }
}

/// The characters `split_whitespace` treats as separators: the unicode
/// white-space class.
pub open spec fn is_space_char(c: char) -> bool {
    let u = c as u32;
    ||| (0x9 <= u && u <= 0xD)
    ||| u == 0x20
    ||| u == 0x85
    ||| u == 0xA0
    ||| u == 0x1680
    ||| (0x2000 <= u && u <= 0x200A)
    ||| u == 0x2028
    ||| u == 0x2029
    ||| u == 0x202F
    ||| u == 0x205F
    ||| u == 0x3000
}

/// Executable test for `is_space_char`.
pub fn is_space(c: char) -> (r: bool)
    ensures
        r == is_space_char(c),
{
    let u = c as u32;
    (0x9 <= u && u <= 0xD) || u == 0x20 || u == 0x85 || u == 0xA0 || u == 0x1680 || (0x2000 <= u
        && u <= 0x200A) || u == 0x2028 || u == 0x2029 || u == 0x202F || u == 0x205F || u == 0x3000
}

/// The non-empty whitespace-separated words of `s`.
pub open spec fn split_words(s: Seq<char>) -> Seq<Seq<char>> {
    split_on(s, |c: char| is_space_char(c)).filter(|w: Seq<char>| w.len() > 0)
}

/// The dash-separated pieces of `s`.
pub open spec fn split_dashes(s: Seq<char>) -> Seq<Seq<char>> {
    split_on(s, |c: char| c == '-')
}

// ------------------------------------------------------------------
// The keysym table.
// ------------------------------------------------------------------
/// The codepoint the keysym table associates with a name, if any. The table
/// is fixed at build time, so the result is a function of the name alone.
pub uninterp spec fn keysym_unicode_of(name: Seq<char>) -> Option<char>;

/// Relies on `x11_keysymdef::lookup_by_name`: a lookup in a static,
/// immutable table from keysym names to records, whose `unicode` field
/// depends on the name alone.
#[verifier::external_body]
fn lookup_keysym(name: &str) -> (r: Option<char>)
    ensures
        r == keysym_unicode_of(name@),
{
    x11_keysymdef::lookup_by_name(name).map(|rec| rec.unicode)
}

// ------------------------------------------------------------------
// The resolver, at the spec level.
// ------------------------------------------------------------------
/// The flag a single-letter modifier code of the dash dialect stands for.
pub open spec fn normal_mod_mask(w: Seq<char>) -> Option<u32> {
    if w == seq!['S'] {
        Some(SHIFT_MASK)
    } else if w == seq!['C'] {
        Some(CONTROL_MASK)
    } else if w == seq!['M'] {
        Some(META_MASK)
    } else if w == seq!['A'] {
        Some(MOD1_MASK)
    } else if w == seq!['G'] {
        Some(MOD5_MASK)
    } else {
        None
    }
}

/// The flag a modifier word of the parenthesized dialect stands for.
pub open spec fn special_mod_mask(w: Seq<char>) -> Option<u32> {
    if w == seq!['s', 'h', 'i', 'f', 't'] {
        Some(SHIFT_MASK)
    } else if w == seq!['c', 'o', 'n', 't', 'r', 'o', 'l'] {
        Some(CONTROL_MASK)
    } else if w == seq!['a', 'l', 't'] {
        Some(MOD1_MASK)
    } else {
        None
    }
}

/// Fold the modifier words into a flag word, left to right, starting from
/// `acc`; the first unrecognized word is the error.
pub open spec fn fold_mods_from(
    ws: Seq<Seq<char>>,
    table: spec_fn(Seq<char>) -> Option<u32>,
    acc: u32,
) -> Result<u32, KeyEventErrorModel>
    decreases ws.len(),
{
    if ws.len() == 0 {
        Ok(acc)
    } else {
        match table(ws[0]) {
            Option::None => Err(KeyEventErrorModel::UnknownModifier { word: ws[0] }),
            Option::Some(m) => fold_mods_from(ws.drop_first(), table, acc | m),
        }
    }
}

/// The flag word of a token's modifier components, or its first
/// unrecognized component.
pub open spec fn fold_mods(ws: Seq<Seq<char>>, table: spec_fn(Seq<char>) -> Option<u32>) -> Result<
    u32,
    KeyEventErrorModel,
> {
    fold_mods_from(ws, table, 0)
}

/// The key the permissive dialect resolves a name to: the table's codepoint,
/// or the null key on a miss.
pub open spec fn fallback_key(name: Seq<char>) -> char {
    match keysym_unicode_of(name) {
        Option::Some(c) => c,
        Option::None => '\0',
    }
}

/// Resolve a dash-dialect token: the last dash-separated piece is the key
/// name and must be in the table; the pieces before it are single-letter
/// modifier codes.
pub open spec fn resolve_normal(text: Seq<char>) -> Result<(char, u32), KeyEventErrorModel> {
    let parts = split_dashes(text);
    let name = parts.last();
    match keysym_unicode_of(name) {
        Option::None => Err(KeyEventErrorModel::KeysymNotFound { name }),
        Option::Some(key) => match fold_mods(parts.drop_last(), |w: Seq<char>| normal_mod_mask(w)) {
            Err(e) => Err(e),
            Ok(w) => Ok((key, w)),
        },
    }
}

/// Resolve a parenthesized-dialect token: the last whitespace-separated word
/// is the key name, resolved permissively; the words before it are modifier
/// words. A token without words names the whole text as the key.
pub open spec fn resolve_special(text: Seq<char>) -> Result<(char, u32), KeyEventErrorModel> {
    let parts = split_words(text);
    if parts.len() == 0 {
        Ok((fallback_key(text), 0))
    } else {
        match fold_mods(parts.drop_last(), |w: Seq<char>| special_mod_mask(w)) {
            Err(e) => Err(e),
            Ok(w) => Ok((fallback_key(parts.last()), w)),
        }
    }
}

/// Resolve one raw token according to its dialect.
pub open spec fn resolve_token(t: RawTokenModel) -> Result<(char, u32), KeyEventErrorModel> {
    match t.kind {
        InputStrType::Normal => resolve_normal(t.text),
        InputStrType::Special => resolve_special(t.text),
    }
}

/// Everything the whole pipeline yields for an input string: one chord
/// `(codepoint, flag word)` or one error per token, in input order.
pub open spec fn chord_results(s: Seq<char>) -> Seq<Result<(char, u32), KeyEventErrorModel>> {
    spec_tokens(s).map_values(
        |t: Result<RawTokenModel, KeyEventErrorModel>|
            match t {
                Ok(tok) => resolve_token(tok),
                Err(e) => Err(e),
            },
    )
}

// ------------------------------------------------------------------
// Splitting, executably.
// ------------------------------------------------------------------
/// Cut `s` at every dash.
fn split_dashes_str<'s>(s: &'s str) -> (parts: Vec<&'s str>)
    ensures
        parts.deep_view() == split_dashes(s@),
        parts.len() >= 1,
{
    let ghost sep = |c: char| c == '-';
    let n = s.unicode_len();
    let mut parts: Vec<&'s str> = Vec::new();
    let mut start: usize = 0;
    let mut i: usize = 0;
    proof {
        assert(s@.subrange(0, n as int) =~= s@);
        assert(parts.deep_view() + split_on(s@, sep) =~= split_on(s@, sep));
    }
    while i < n
        invariant
            0 <= start <= i <= n,
            n == s@.len(),
            sep == (|c: char| c == '-'),
            forall|j: int| start <= j < i ==> !sep(s@[j]),
            split_on(s@, sep) == parts.deep_view() + split_on(
                s@.subrange(start as int, n as int),
                sep,
            ),
        decreases n - i,
    {
        let c = s.get_char(i);
        if c == '-' {
            let piece = s.substring_char(start, i);
            let ghost before = parts.deep_view();
            parts.push(piece);
            proof {
                let tail = s@.subrange(start as int, n as int);
                lemma_split_on_first_sep(tail, sep, i - start);
                assert(tail.subrange(0, i - start) =~= s@.subrange(start as int, i as int));
                assert(tail.subrange(i - start + 1, tail.len() as int) =~= s@.subrange(
                    i + 1,
                    n as int,
                ));
                assert(parts.deep_view() =~= before.push(piece@));
                assert(before.push(piece@) + split_on(s@.subrange(i + 1, n as int), sep) =~= before
                    + (seq![piece@] + split_on(s@.subrange(i + 1, n as int), sep)));
            }
            start = i + 1;
        }
        i += 1;
    }
    let piece = s.substring_char(start, n);
    let ghost before = parts.deep_view();
    parts.push(piece);
    proof {
        let tail = s@.subrange(start as int, n as int);
        lemma_split_on_no_sep(tail, sep);
        assert(parts.deep_view() =~= before.push(piece@));
        assert(before.push(piece@) =~= before + seq![piece@]);
        assert(parts.deep_view() =~= split_on(s@, sep));
        lemma_split_on_len(s@, sep);
    }
    parts
}

/// Cut `s` into its non-empty whitespace-separated words.
fn split_words_str<'s>(s: &'s str) -> (parts: Vec<&'s str>)
    ensures
        parts.deep_view() == split_words(s@),
{
    broadcast use vstd::seq_lib::group_seq_lib_default;

    let ghost sep = |c: char| is_space_char(c);
    let ghost keep = |w: Seq<char>| w.len() > 0;
    let n = s.unicode_len();
    let mut parts: Vec<&'s str> = Vec::new();
    let mut start: usize = 0;
    let mut i: usize = 0;
    proof {
        assert(s@.subrange(0, n as int) =~= s@);
        assert(parts.deep_view() + split_on(s@, sep).filter(keep) =~= split_on(s@, sep).filter(
            keep,
        ));
    }
    while i < n
        invariant
            0 <= start <= i <= n,
            n == s@.len(),
            sep == (|c: char| is_space_char(c)),
            keep == (|w: Seq<char>| w.len() > 0),
            forall|j: int| start <= j < i ==> !sep(s@[j]),
            split_on(s@, sep).filter(keep) == parts.deep_view() + split_on(
                s@.subrange(start as int, n as int),
                sep,
            ).filter(keep),
        decreases n - i,
    {
        let c = s.get_char(i);
        if is_space(c) {
            let ghost tail = s@.subrange(start as int, n as int);
            let ghost rest = s@.subrange(i + 1, n as int);
            proof {
                lemma_split_on_first_sep(tail, sep, i - start);
                assert(tail.subrange(0, i - start) =~= s@.subrange(start as int, i as int));
                assert(tail.subrange(i - start + 1, tail.len() as int) =~= rest);
                Seq::filter_distributes_over_add(
                    seq![s@.subrange(start as int, i as int)],
                    split_on(rest, sep),
                    keep,
                );
                reveal(Seq::filter);
            }
            if i > start {
                let piece = s.substring_char(start, i);
                let ghost before = parts.deep_view();
                parts.push(piece);
                proof {
                    assert(seq![piece@].filter(keep) =~= seq![piece@]);
                    assert(parts.deep_view() =~= before.push(piece@));
                    assert(before.push(piece@) + split_on(rest, sep).filter(keep) =~= before + (
                    seq![piece@] + split_on(rest, sep).filter(keep)));
                }
            } else {
                proof {
                    reveal_with_fuel(Seq::filter, 2);
                    assert(s@.subrange(start as int, i as int).len() == 0);
                    assert(seq![s@.subrange(start as int, i as int)].filter(keep)
                        =~= Seq::<Seq<char>>::empty());
                    assert(Seq::<Seq<char>>::empty() + split_on(rest, sep).filter(keep) =~= split_on(
                        rest,
                        sep,
                    ).filter(keep));
                }
            }
            start = i + 1;
        }
        i += 1;
    }
    let ghost tail = s@.subrange(start as int, n as int);
    proof {
        lemma_split_on_no_sep(tail, sep);
        reveal(Seq::filter);
    }
    if n > start {
        let piece = s.substring_char(start, n);
        let ghost before = parts.deep_view();
        parts.push(piece);
        proof {
            assert(seq![piece@].filter(keep) =~= seq![piece@]);
            assert(parts.deep_view() =~= before.push(piece@));
            assert(before.push(piece@) =~= before + seq![piece@]);
            assert(parts.deep_view() =~= split_words(s@));
        }
    } else {
        proof {
            reveal_with_fuel(Seq::filter, 2);
            assert(tail.len() == 0);
            assert(seq![tail].filter(keep) =~= Seq::<Seq<char>>::empty());
            assert(parts.deep_view() + Seq::<Seq<char>>::empty() =~= parts.deep_view());
            assert(parts.deep_view() =~= split_words(s@));
        }
    }
    parts
}

// ------------------------------------------------------------------
// The resolver, executably.
// ------------------------------------------------------------------
/// Resolve a key name of the strict dash dialect: a table miss is an error.
pub fn extract_key_normal(x: &str) -> (r: Result<char, KeyEventError>)
    ensures
        match r {
            Ok(c) => keysym_unicode_of(x@) == Some(c),
            Err(e) => keysym_unicode_of(x@) is None && e@ == (KeyEventErrorModel::KeysymNotFound {
                name: x@,
            }),
        },
{
    match lookup_keysym(x) {
        Option::Some(c) => Ok(c),
        Option::None => Err(KeyEventError::KeysymNotFound { name: x.to_owned() }),
    }
}

/// Resolve a key name of the permissive parenthesized dialect: a table miss
/// falls back to the null key.
pub fn extract_key_special(x: &str) -> (r: Result<char, KeyEventError>)
    ensures
        r == Ok::<char, KeyEventError>(fallback_key(x@)),
{
    match lookup_keysym(x) {
        Option::Some(c) => Ok(c),
        Option::None => Ok('\0'),
    }
}

/// Map the single-letter modifier codes of a dash token to a flag set; the
/// first unrecognized code is the error.
pub fn extract_modifiers_normal(v: &[&str]) -> (r: Result<X11Modifier, KeyEventError>)
    ensures
        match r {
            Ok(m) => fold_mods(v.deep_view(), |w: Seq<char>| normal_mod_mask(w)) == Ok::<
                u32,
                KeyEventErrorModel,
            >(m.spec_bits()),
            Err(e) => fold_mods(v.deep_view(), |w: Seq<char>| normal_mod_mask(w)) == Err::<
                u32,
                KeyEventErrorModel,
            >(e@),
        },
{
    let ghost table = |w: Seq<char>| normal_mod_mask(w);
    let n = v.len();
    let mut acc: u32 = 0;
    let mut i: usize = 0;
    proof {
        assert(v.deep_view().skip(0) =~= v.deep_view());
    }
    while i < n
        invariant
            0 <= i <= n,
            n == v.deep_view().len(),
            table == (|w: Seq<char>| normal_mod_mask(w)),
            fold_mods_from(v.deep_view().skip(i as int), table, acc) == fold_mods(
                v.deep_view(),
                table,
            ),
        decreases n - i,
    {
        let w = v[i];
        proof {
            assert(v.deep_view().skip(i as int)[0] == w@);
            assert(v.deep_view().skip(i as int).drop_first() =~= v.deep_view().skip(i + 1));
        }
        let mask: u32;
        if w.unicode_len() == 1 {
            let c = w.get_char(0);
            proof {
                if c == 'S' {
                    assert(w@ =~= seq!['S']);
                } else if c == 'C' {
                    assert(w@ =~= seq!['C']);
                } else if c == 'M' {
                    assert(w@ =~= seq!['M']);
                } else if c == 'A' {
                    assert(w@ =~= seq!['A']);
                } else if c == 'G' {
                    assert(w@ =~= seq!['G']);
                } else {
                    assert(w@ != seq!['S'] && w@ != seq!['C'] && w@ != seq!['M'] && w@ != seq!['A']
                        && w@ != seq!['G']);
                }
            }
            if c == 'S' {
                mask = SHIFT_MASK;
            } else if c == 'C' {
                mask = CONTROL_MASK;
            } else if c == 'M' {
                mask = META_MASK;
            } else if c == 'A' {
                mask = MOD1_MASK;
            } else if c == 'G' {
                mask = MOD5_MASK;
            } else {
                return Err(KeyEventError::UnknownModifier { word: w.to_owned() });
            }
        } else {
            proof {
                assert(w@.len() != 1);
                assert(normal_mod_mask(w@) is None);
            }
            return Err(KeyEventError::UnknownModifier { word: w.to_owned() });
        }
        acc = acc | mask;
        i += 1;
    }
    proof {
        assert(v.deep_view().skip(n as int).len() == 0);
    }
    Ok(X11Modifier::new(acc))
}

/// Map the modifier words of a parenthesized token to a flag set; the first
/// unrecognized word is the error.
pub fn extract_modifiers_special(v: &[&str]) -> (r: Result<X11Modifier, KeyEventError>)
    ensures
        match r {
            Ok(m) => fold_mods(v.deep_view(), |w: Seq<char>| special_mod_mask(w)) == Ok::<
                u32,
                KeyEventErrorModel,
            >(m.spec_bits()),
            Err(e) => fold_mods(v.deep_view(), |w: Seq<char>| special_mod_mask(w)) == Err::<
                u32,
                KeyEventErrorModel,
            >(e@),
        },
{
    let ghost table = |w: Seq<char>| special_mod_mask(w);
    let n = v.len();
    let mut acc: u32 = 0;
    let mut i: usize = 0;
    proof {
        assert(v.deep_view().skip(0) =~= v.deep_view());
        reveal_strlit("shift");
        reveal_strlit("control");
        reveal_strlit("alt");
        assert("shift"@ =~= seq!['s', 'h', 'i', 'f', 't']);
        assert("control"@ =~= seq!['c', 'o', 'n', 't', 'r', 'o', 'l']);
        assert("alt"@ =~= seq!['a', 'l', 't']);
    }
    while i < n
        invariant
            0 <= i <= n,
            n == v.deep_view().len(),
            table == (|w: Seq<char>| special_mod_mask(w)),
            fold_mods_from(v.deep_view().skip(i as int), table, acc) == fold_mods(
                v.deep_view(),
                table,
            ),
        decreases n - i,
    {
        let w = v[i];
        proof {
            reveal_strlit("shift");
            reveal_strlit("control");
            reveal_strlit("alt");
            assert("shift"@ =~= seq!['s', 'h', 'i', 'f', 't']);
            assert("control"@ =~= seq!['c', 'o', 'n', 't', 'r', 'o', 'l']);
            assert("alt"@ =~= seq!['a', 'l', 't']);
            assert(v.deep_view().skip(i as int)[0] == w@);
            assert(v.deep_view().skip(i as int).drop_first() =~= v.deep_view().skip(i + 1));
        }
        let mask: u32;
        if crate::event::key::str_eq_str(w, "shift") {
            mask = SHIFT_MASK;
        } else if crate::event::key::str_eq_str(w, "control") {
            mask = CONTROL_MASK;
        } else if crate::event::key::str_eq_str(w, "alt") {
            mask = MOD1_MASK;
        } else {
            return Err(KeyEventError::UnknownModifier { word: w.to_owned() });
        }
        acc = acc | mask;
        i += 1;
    }
    proof {
        assert(v.deep_view().skip(n as int).len() == 0);
    }
    Ok(X11Modifier::new(acc))
}

/// Turn one raw token into a chord event or a per-token error, following
/// its dialect's rules.
pub fn extract_key_event(value: InputTokenStruct) -> (r: Result<
    crate::event::KeyEvent<char, X11Modifier>,
    KeyEventError,
>)
    ensures
        match r {
            Ok(ev) => resolve_token(value.model()) == Ok::<(char, u32), KeyEventErrorModel>(
                (ev.key_spec(), ev.modifiers_spec().spec_bits()),
            ),
            Err(e) => resolve_token(value.model()) == Err::<(char, u32), KeyEventErrorModel>(e@),
        },
{
    let s = value.as_str();
    match value.kind() {
        InputStrType::Normal => {
            let parts = split_dashes_str(s);
            let pieces = parts.as_slice();
            let k = parts.len() - 1;
            let name = pieces[k];
            proof {
                assert(name@ == split_dashes(s@).last());
            }
            match extract_key_normal(name) {
                Err(e) => Err(e),
                Ok(key) => {
                    let mods = &pieces[0..k];
                    proof {
                        assert(mods.deep_view() =~= split_dashes(s@).drop_last());
                    }
                    match extract_modifiers_normal(mods) {
                        Err(e) => Err(e),
                        Ok(modifiers) => Ok(crate::event::KeyEvent::new(key, modifiers)),
                    }
                },
            }
        },
        InputStrType::Special => {
            let parts = split_words_str(s);
            if parts.len() == 0 {
                match extract_key_special(s) {
                    Err(e) => Err(e),
                    Ok(key) => Ok(crate::event::KeyEvent::new(key, X11Modifier::new(0))),
                }
            } else {
                let pieces = parts.as_slice();
                let k = parts.len() - 1;
                let name = pieces[k];
                proof {
                    assert(name@ == split_words(s@).last());
                }
                let mods = &pieces[0..k];
                proof {
                    assert(mods.deep_view() =~= split_words(s@).drop_last());
                }
                match extract_modifiers_special(mods) {
                    Err(e) => Err(e),
                    Ok(modifiers) => {
                        match extract_key_special(name) {
                            Err(e) => Err(e),
                            Ok(key) => Ok(crate::event::KeyEvent::new(key, modifiers)),
                        }
                    },
                }
            }
        },
    }
}

// ------------------------------------------------------------------
// The parser.
// ------------------------------------------------------------------
/// Resolution of one raw-token outcome: tokenizer errors pass through,
/// tokens go through the dialect rules.
pub open spec fn resolve_item(t: Result<RawTokenModel, KeyEventErrorModel>) -> Result<
    (char, u32),
    KeyEventErrorModel,
> {
    match t {
        Ok(tok) => resolve_token(tok),
        Err(e) => Err(e),
    }
}

/// A one-shot pull parser over an input string: each pull tokenizes up to
/// the next boundary and resolves the token. A nesting error halts the
/// session; per-token resolution errors do not.
#[derive(Clone, Debug)]
pub struct CompatibleParser<'a> {
    input: &'a str,
    position: usize,
    halted: bool,
}

impl<'a> CompatibleParser<'a> {
    /// The cursor never leaves the input.
    pub closed spec fn wf(&self) -> bool {
        self.position <= self.input@.len()
    }

    /// The raw-token outcomes this parser has still to yield.
    pub closed spec fn token_stream(&self) -> Seq<Result<RawTokenModel, KeyEventErrorModel>> {
        if self.halted {
            Seq::empty()
        } else {
            spec_tokens(self.input@.skip(self.position as int))
        }
    }

    /// The chord outcomes this parser has still to yield.
    pub open spec fn results(&self) -> Seq<Result<(char, u32), KeyEventErrorModel>> {
        self.token_stream().map_values(|t: Result<RawTokenModel, KeyEventErrorModel>| resolve_item(t))
    }

    /// A fresh parser over `input`, positioned at its start.
    pub fn new(input: &'a str) -> (r: Self)
        ensures
            r.wf(),
            r.token_stream() == spec_tokens(input@),
            r.results() == chord_results(input@),
    {
        let r = CompatibleParser { input, position: 0, halted: false };
        proof {
            assert(input@.skip(0) =~= input@);
            assert(r.results() =~= chord_results(input@));
        }
        r
    }

    /// Cut the next raw token out of the input.
    ///
    /// `None` means the remaining input holds no further token. An `Err` is
    /// a nesting error; it is the last thing this parser yields.
    pub fn parse_text(&mut self) -> (r: Option<Result<InputTokenStruct, KeyEventError>>)
        requires
            old(self).wf(),
        ensures
            final(self).wf(),
            match r {
                Option::None => old(self).token_stream().len() == 0
                    && final(self).token_stream().len() == 0,
                Option::Some(Ok(t)) => {
                    &&& old(self).token_stream().len() > 0
                    &&& old(self).token_stream()[0] == Ok::<RawTokenModel, KeyEventErrorModel>(
                        t.model(),
                    )
                    &&& final(self).token_stream() == old(self).token_stream().drop_first()
                },
                Option::Some(Err(e)) => {
                    &&& old(self).token_stream().len() > 0
                    &&& old(self).token_stream()[0] == Err::<RawTokenModel, KeyEventErrorModel>(e@)
                    &&& final(self).token_stream() == old(self).token_stream().drop_first()
                },
            },
    {
        if self.halted {
            return None;
        }
        let n = self.input.unicode_len();
        let mut kind = InputStrType::Normal;
        let mut raw = String::new();
        let mut escape = false;
        proof {
            assert(TokState { kind, text: raw@, escape } == init_tok_state());
        }
        while self.position < n
            invariant
                self.wf(),
                !self.halted,
                !old(self).halted,
                self.input == old(self).input,
                self.position >= old(self).position,
                n == self.input@.len(),
                old(self).token_stream() == spec_tokenize(
                    self.input@.skip(self.position as int),
                    TokState { kind, text: raw@, escape },
                ),
            decreases n - self.position,
        {
            let i = self.position;
            let c = self.input.get_char(i);
            let ghost st = TokState { kind, text: raw@, escape };
            let ghost rem = self.input@.skip(i as int);
            proof {
                assert(rem[0] == self.input@[i as int]);
                assert(rem.drop_first() =~= self.input@.skip(i + 1));
            }
            self.position = i + 1;
            if escape {
                let piece = self.input.substring_char(i, i + 1);
                proof {
                    assert(piece@ =~= seq![c]);
                    assert(raw@.push(c) =~= raw@ + seq![c]);
                }
                raw.append(piece);
                escape = false;
            } else if c == '\\' {
                escape = true;
            } else if c == ' ' {
                let started = match kind {
                    InputStrType::Special => true,
                    InputStrType::Normal => !raw.as_str().is_empty(),
                };
                if started {
                    let token = InputTokenStruct { kind, raw };
                    proof {
                        assert(spec_tokenize(rem, st) == seq![
                            Ok::<RawTokenModel, KeyEventErrorModel>(token.model()),
                        ] + spec_tokenize(self.input@.skip(self.position as int), init_tok_state()));
                        assert(self.token_stream() =~= old(self).token_stream().drop_first());
                    }
                    return Some(Ok(token));
                } else {
                    kind = InputStrType::Normal;
                    raw = String::new();
                    escape = false;
                    proof {
                        assert(TokState { kind, text: raw@, escape } =~= init_tok_state());
                    }
                }
            } else if c == '(' {
                match kind {
                    InputStrType::Normal => {
                        kind = InputStrType::Special;
                        raw = String::new();
                    },
                    InputStrType::Special => {
                        self.halted = true;
                        let e = KeyEventError::BareOpenParen;
                        proof {
                            assert(spec_tokenize(rem, st) == seq![
                                Err::<RawTokenModel, KeyEventErrorModel>(e@),
                            ]);
                            assert(self.token_stream() =~= old(self).token_stream().drop_first());
                        }
                        return Some(Err(e));
                    },
                }
            } else if c == ')' {
                match kind {
                    InputStrType::Normal => {
                        self.halted = true;
                        let e = KeyEventError::BareCloseParen;
                        proof {
                            assert(spec_tokenize(rem, st) == seq![
                                Err::<RawTokenModel, KeyEventErrorModel>(e@),
                            ]);
                            assert(self.token_stream() =~= old(self).token_stream().drop_first());
                        }
                        return Some(Err(e));
                    },
                    InputStrType::Special => {
                        // inert: the paren neither closes the token nor is stored
                    },
                }
            } else {
                let piece = self.input.substring_char(i, i + 1);
                proof {
                    assert(piece@ =~= seq![c]);
                    assert(raw@.push(c) =~= raw@ + seq![c]);
                }
                raw.append(piece);
            }
        }
        proof {
            assert(self.input@.skip(self.position as int).len() == 0);
        }
        let started = match kind {
            InputStrType::Special => true,
            InputStrType::Normal => !raw.as_str().is_empty(),
        };
        if started {
            let token = InputTokenStruct { kind, raw };
            proof {
                assert(old(self).token_stream() == seq![
                    Ok::<RawTokenModel, KeyEventErrorModel>(token.model()),
                ]);
                assert(self.token_stream() =~= old(self).token_stream().drop_first());
            }
            Some(Ok(token))
        } else {
            proof {
                assert(old(self).token_stream().len() == 0);
            }
            None
        }
    }

    /// Pull the next chord outcome: the next raw token, resolved; or the
    /// nesting error that ends the session; or `None` when the input is
    /// exhausted.
    pub fn parse_next(&mut self) -> (r: Option<
        Result<crate::event::KeyEvent<char, X11Modifier>, KeyEventError>,
    >)
        requires
            old(self).wf(),
        ensures
            final(self).wf(),
            match r {
                Option::None => old(self).results().len() == 0 && final(self).results().len() == 0,
                Option::Some(item) => {
                    &&& old(self).results().len() > 0
                    &&& old(self).results()[0] == item_model(item)
                    &&& final(self).results() == old(self).results().drop_first()
                },
            },
    {
        let step = self.parse_text();
        match step {
            Option::None => None,
            Option::Some(Err(e)) => {
                proof {
                    assert(old(self).results()[0] == resolve_item(old(self).token_stream()[0]));
                    assert(self.results() =~= old(self).results().drop_first());
                }
                Some(Err(e))
            },
            Option::Some(Ok(token)) => {
                proof {
                    assert(old(self).results()[0] == resolve_item(old(self).token_stream()[0]));
                    assert(self.results() =~= old(self).results().drop_first());
                }
                Some(extract_key_event(token))
            },
        }
    }

    /// Pull everything that is left, in input order.
    pub fn parse_all(&mut self) -> (out: Vec<
        Result<crate::event::KeyEvent<char, X11Modifier>, KeyEventError>,
    >)
        requires
            old(self).wf(),
        ensures
            final(self).wf(),
            out@.map_values(
                |item: Result<crate::event::KeyEvent<char, X11Modifier>, KeyEventError>|
                    item_model(item),
            ) == old(self).results(),
            final(self).results().len() == 0,
    {
        let ghost to_model = |item: Result<crate::event::KeyEvent<char, X11Modifier>, KeyEventError>|
            item_model(item);
        let mut out: Vec<Result<crate::event::KeyEvent<char, X11Modifier>, KeyEventError>> =
            Vec::new();
        let mut done = false;
        proof {
            assert(out@.map_values(to_model) + self.results() =~= self.results());
        }
        while !done
            invariant
                self.wf(),
                to_model == (|item: Result<
                    crate::event::KeyEvent<char, X11Modifier>,
                    KeyEventError,
                >| item_model(item)),
                old(self).results() == out@.map_values(to_model) + self.results(),
                done ==> self.results().len() == 0,
            decreases self.results().len() + (if done { 0int } else { 1int }),
        {
            let ghost before = self.results();
            let ghost out_before = out@;
            match self.parse_next() {
                Option::None => {
                    done = true;
                },
                Option::Some(item) => {
                    out.push(item);
                    proof {
                        assert(out@.map_values(to_model) =~= out_before.map_values(to_model).push(
                            item_model(item),
                        ));
                        assert(out_before.map_values(to_model).push(item_model(item))
                            + self.results() =~= out_before.map_values(to_model) + before);
                    }
                },
            }
        }
        proof {
            assert(out@.map_values(to_model) + self.results() =~= out@.map_values(to_model));
        }
        out
    }
}

/// The chord outcome an event or error stands for, at the spec level.
pub open spec fn item_model(
    item: Result<crate::event::KeyEvent<char, X11Modifier>, KeyEventError>,
) -> Result<(char, u32), KeyEventErrorModel> {
    match item {
        Ok(ev) => Ok((ev.key_spec(), ev.modifiers_spec().spec_bits())),
        Err(e) => Err(e@),
    }
}

/// Entry point on strings: read a chord parser off any string-like value.
pub trait StringExt {
    /// The text to parse, at the spec level.
    spec fn text_view(&self) -> Seq<char>;

    /// A fresh parser over this text.
    fn as_key_events(&self) -> (p: CompatibleParser<'_>)
        ensures
            p.wf(),
            p.results() == chord_results(self.text_view()),
    ;
}

impl StringExt for String {
    open spec fn text_view(&self) -> Seq<char> {
        self@
    }

    fn as_key_events(&self) -> (p: CompatibleParser<'_>) {
        CompatibleParser::new(self.as_str())
    }
}

impl<'x> StringExt for &'x str {
    open spec fn text_view(&self) -> Seq<char> {
        self@
    }

    fn as_key_events(&self) -> (p: CompatibleParser<'_>) {
        CompatibleParser::new(self)
    }
}

} // verus!
