//! Module classification and preparation. A load request names a module by
//! its resolved specifier; the file extension alone — read from the path
//! part of the location, before any query or fragment — decides whether the
//! source text runs as a plain script, must first be transpiled (type
//! annotations and JSX erased, syntax lowered), or is parsed as structured
//! data. A specifier whose extension is not in the table is refused: the
//! loader must not guess.

use vstd::prelude::*;

verus! {

/// How a module's source text is treated, decided by its extension alone.
#[derive(PartialEq, Eq, Structural, Clone, Copy, Debug)]
pub enum ModuleKind {
    /// A plain script, passed to the engine unmodified.
    Script,
    /// Typed or JSX syntax that must be transpiled before evaluation.
    NeedsTransform,
    /// Structured data, parsed as data rather than executed.
    Data,
}

/// What the engine is told a prepared module is.
#[derive(PartialEq, Eq, Structural, Clone, Copy, Debug)]
pub enum ModuleType {
    JavaScript,
    Json,
}

/// `c` reads as the (lower-case) pattern character `p`, matching an ASCII
/// upper-case letter with its lower-case form.
pub open spec fn lc_eq(c: char, p: char) -> bool {
    c == p || (c as u32) + 32 == (p as u32)
}

/// The extension `e` spells the lower-case pattern `p`, case-insensitively.
pub open spec fn lc_matches(e: Seq<char>, p: Seq<char>) -> bool {
    e.len() == p.len() && (forall|i: int| 0 <= i < p.len() ==> lc_eq(e[i], p[i]))
}

/// The classification table: `js`, `mjs`, `cjs` run as they are; `jsx`,
/// `ts`, `mts`, `cts`, `tsx` (which covers the `.d.ts` family) must be
/// transpiled; `json` is data; anything else is refused.
pub open spec fn kind_of_ext(e: Seq<char>) -> Option<ModuleKind> {
    if lc_matches(e, seq!['j', 's']) || lc_matches(e, seq!['m', 'j', 's']) || lc_matches(
        e,
        seq!['c', 'j', 's'],
    ) {
        Some(ModuleKind::Script)
    } else if lc_matches(e, seq!['j', 's', 'x']) || lc_matches(e, seq!['t', 's']) || lc_matches(
        e,
        seq!['m', 't', 's'],
    ) || lc_matches(e, seq!['c', 't', 's']) || lc_matches(e, seq!['t', 's', 'x']) {
        Some(ModuleKind::NeedsTransform)
    } else if lc_matches(e, seq!['j', 's', 'o', 'n']) {
        Some(ModuleKind::Data)
    } else {
        None
    }
}

/// The extension of `s` begins at `i`: a dot stands just before it and no
/// dot follows it.
pub open spec fn ext_starts_at(s: Seq<char>, i: int) -> bool {
    &&& 1 <= i <= s.len()
    &&& s[i - 1] == '.'
    &&& (forall|j: int| i <= j < s.len() ==> s[j] != '.')
}

/// Where a specifier's extension begins is unambiguous.
pub proof fn lemma_ext_start_unique(s: Seq<char>, i1: int, i2: int)
    requires
        ext_starts_at(s, i1),
        ext_starts_at(s, i2),
    ensures
        i1 == i2,
{
    if i1 < i2 {
        assert(s[i2 - 1] == '.');
    } else if i2 < i1 {
        assert(s[i1 - 1] == '.');
    }
}

/// A query or fragment separator ends the path part of a location.
pub open spec fn is_sep(c: char) -> bool {
    c == '?' || c == '#'
}

/// The path part of `s` ends at `i`: no separator stands before it, and
/// either the string ends there or a separator stands there.
pub open spec fn cut_at(s: Seq<char>, i: int) -> bool {
    &&& 0 <= i <= s.len()
    &&& (forall|j: int| 0 <= j < i ==> !is_sep(s[j]))
    &&& (i == s.len() || is_sep(s[i]))
}

/// Where the path part ends is unambiguous.
pub proof fn lemma_cut_unique(s: Seq<char>, i1: int, i2: int)
    requires
        cut_at(s, i1),
        cut_at(s, i2),
    ensures
        i1 == i2,
{
    if i1 < i2 {
        assert(!is_sep(s[i1]));
    } else if i2 < i1 {
        assert(!is_sep(s[i2]));
    }
}

/// The specifier with any query or fragment removed: what stands before
/// the first `?` or `#`.
pub open spec fn spec_path_part(s: Seq<char>) -> Seq<char> {
    if exists|i: int| cut_at(s, i) {
        s.subrange(0, choose|i: int| cut_at(s, i))
    } else {
        s
    }
}

/// The module kind a specifier is classified as: the table applied to what
/// follows the last dot of the path part, or nothing when the path part
/// has no dot at all.
pub open spec fn spec_classify(s: Seq<char>) -> Option<ModuleKind> {
    let p = spec_path_part(s);
    if exists|i: int| ext_starts_at(p, i) {
        kind_of_ext(p.subrange(choose|i: int| ext_starts_at(p, i), p.len() as int))
    } else {
        None
    }
}

/// Finds where the specifier's path part ends: at the first `?` or `#`,
/// or at the end of the string.
fn path_end(path: &str) -> (cut: usize)
    ensures
        cut_at(path@, cut as int),
{
    let n = path.unicode_len();
    let mut k: usize = 0;
    while k < n
        invariant
            k <= n,
            n == path@.len(),
            forall|j: int| 0 <= j < k ==> !is_sep(path@[j]),
        decreases n - k,
    {
        let c = path.get_char(k);
        if c == '?' || c == '#' {
            return k;
        }
        k = k + 1;
    }
    k
}

/// Classifies a specifier by the file extension of its path part.
pub fn classify(path: &str) -> (r: Option<ModuleKind>)
    ensures
        r == spec_classify(path@),
{
    let cut = path_end(path);
    let ghost p = spec_path_part(path@);
    proof {
        let w = choose|i: int| cut_at(path@, i);
        lemma_cut_unique(path@, cut as int, w);
        assert(p =~= path@.subrange(0, cut as int));
    }
    let mut i = cut;
    while i > 0
        invariant
            i <= cut,
            cut <= path@.len(),
            p == spec_path_part(path@),
            p == path@.subrange(0, cut as int),
            forall|j: int| i <= j < cut ==> path@[j] != '.',
        decreases i,
    {
        let c = path.get_char(i - 1);
        if c == '.' {
            proof {
                assert(ext_starts_at(p, i as int)) by {
                    assert(p[i - 1] == path@[i - 1]);
                    assert forall|j: int| i <= j < p.len() implies p[j] != '.' by {
                        assert(p[j] == path@[j]);
                    }
                }
                let w = choose|w: int| ext_starts_at(p, w);
                lemma_ext_start_unique(p, i as int, w);
                assert(p.subrange(i as int, p.len() as int) =~= path@.subrange(
                    i as int,
                    cut as int,
                ));
            }
            let ext = chars_of_range(path, i, cut);
            let r = kind_of_ext_exec(&ext);
            return r;
        }
        i = i - 1;
    }
    proof {
        assert forall|k: int| !ext_starts_at(p, k) by {
            if 1 <= k <= p.len() {
                assert(p[k - 1] == path@[k - 1]);
            }
        }
    }
    None
}

/// Copies the characters of `s` between `from` and `to` into a vector.
fn chars_of_range(s: &str, from: usize, to: usize) -> (v: Vec<char>)
    requires
        from <= to <= s@.len(),
    ensures
        v@ == s@.subrange(from as int, to as int),
{
    let mut v: Vec<char> = Vec::new();
    let mut k = from;
    while k < to
        invariant
            from <= k <= to <= s@.len(),
            v@ == s@.subrange(from as int, k as int),
        decreases to - k,
    {
        let c = s.get_char(k);
        v.push(c);
        proof {
            assert(v@ =~= s@.subrange(from as int, (k + 1) as int));
        }
        k = k + 1;
    }
    v
}

/// Decides `lc_eq` on two characters.
fn lc_eq_exec(c: char, p: char) -> (r: bool)
    ensures
        r == lc_eq(c, p),
{
    c == p || (c as u32) + 32 == (p as u32)
}

/// Decides whether `e` spells the two-character pattern `p0 p1`.
fn m2(e: &Vec<char>, p0: char, p1: char) -> (r: bool)
    ensures
        r == lc_matches(e@, seq![p0, p1]),
{
    let r = e.len() == 2 && lc_eq_exec(e[0], p0) && lc_eq_exec(e[1], p1);
    proof {
        if r {
            assert forall|i: int| 0 <= i < 2 implies lc_eq(e@[i], seq![p0, p1][i]) by {}
        }
    }
    r
}

/// Decides whether `e` spells the three-character pattern `p0 p1 p2`.
fn m3(e: &Vec<char>, p0: char, p1: char, p2: char) -> (r: bool)
    ensures
        r == lc_matches(e@, seq![p0, p1, p2]),
{
    let r = e.len() == 3 && lc_eq_exec(e[0], p0) && lc_eq_exec(e[1], p1) && lc_eq_exec(e[2], p2);
    proof {
        if r {
            assert forall|i: int| 0 <= i < 3 implies lc_eq(e@[i], seq![p0, p1, p2][i]) by {}
        }
    }
    r
}

/// Decides whether `e` spells the four-character pattern `p0 p1 p2 p3`.
fn m4(e: &Vec<char>, p0: char, p1: char, p2: char, p3: char) -> (r: bool)
    ensures
        r == lc_matches(e@, seq![p0, p1, p2, p3]),
{
    let r = e.len() == 4 && lc_eq_exec(e[0], p0) && lc_eq_exec(e[1], p1) && lc_eq_exec(e[2], p2)
        && lc_eq_exec(e[3], p3);
    proof {
        if r {
            assert forall|i: int| 0 <= i < 4 implies lc_eq(e@[i], seq![p0, p1, p2, p3][i]) by {}
        }
    }
    r
}

/// Applies the classification table to an extension.
fn kind_of_ext_exec(e: &Vec<char>) -> (r: Option<ModuleKind>)
    ensures
        r == kind_of_ext(e@),
{
    if m2(e, 'j', 's') || m3(e, 'm', 'j', 's') || m3(e, 'c', 'j', 's') {
        Some(ModuleKind::Script)
    } else if m3(e, 'j', 's', 'x') || m2(e, 't', 's') || m3(e, 'm', 't', 's') || m3(
        e,
        'c',
        't',
        's',
    ) || m3(e, 't', 's', 'x') {
        Some(ModuleKind::NeedsTransform)
    } else if m4(e, 'j', 's', 'o', 'n') {
        Some(ModuleKind::Data)
    } else {
        None
    }
}

/// `s` with every leading byte-order mark removed. The parser refuses a
/// leading mark (it panics on one in debug builds and strips it itself in
/// release builds), and the mark is insignificant format-control whitespace
/// to the grammar, so removing it changes nothing of the program.
pub open spec fn strip_bom(s: Seq<char>) -> Seq<char>
    decreases s.len(),
{
    if s.len() > 0 && s[0] == '\u{FEFF}' {
        strip_bom(s.subrange(1, s.len() as int))
    } else {
        s
    }
}

/// What the stripping leaves never starts with a byte-order mark.
pub proof fn lemma_strip_bom_head(s: Seq<char>)
    ensures
        strip_bom(s).len() > 0 ==> strip_bom(s)[0] != '\u{FEFF}',
    decreases s.len(),
{
    if s.len() > 0 && s[0] == '\u{FEFF}' {
        lemma_strip_bom_head(s.subrange(1, s.len() as int));
    }
}

/// Removes the leading byte-order marks, if any.
fn strip_bom_exec(source: String) -> (r: String)
    ensures
        r@ == strip_bom(source@),
{
    let mut cur = source;
    loop
        invariant
            strip_bom(cur@) == strip_bom(source@),
        decreases cur@.len(),
    {
        let n = cur.as_str().unicode_len();
        if n == 0 {
            return cur;
        }
        let c0 = cur.as_str().get_char(0);
        if c0 != '\u{FEFF}' {
            return cur;
        }
        let rest = cur.as_str().substring_char(1, n).to_owned();
        proof {
            assert(rest@ == cur@.subrange(1, cur@.len() as int));
        }
        cur = rest;
    }
}

/// What transpiling the module at `specifier` with source `text` emits:
/// the lowered plain-script program, or the parse or emit diagnostic. The
/// emit is a function of the specifier and the source text alone.
pub uninterp spec fn transpile_result(specifier: Seq<char>, text: Seq<char>) -> Result<
    Seq<char>,
    Seq<char>,
>;

/// Relies on deno_ast::parse_module and deno_ast::ParsedSource::transpile:
/// parse the source under the grammar named by the specifier's extension
/// (deno_ast::MediaType::from_specifier), then emit the equivalent plain
/// script (tokens not captured, no scope analysis, default transpile and
/// emit options); and on deno_ast::ModuleSpecifier::parse, whose outcome is
/// a function of the specifier string. The three calls form one pipeline,
/// deterministic in the specifier and text, so the single name below covers
/// the whole of it. The parser refuses a text that begins with a
/// byte-order mark (a panic in debug builds), so such a text is excluded
/// here; the caller strips the mark first.
#[verifier::external_body]
fn transpile_call(specifier: &str, text: String) -> (r: Result<String, String>)
    requires
        text@.len() > 0 ==> text@[0] != '\u{FEFF}',
    ensures
        r is Ok <==> transpile_result(specifier@, text@) is Ok,
        r matches Ok(c) ==> c@ == transpile_result(specifier@, text@)->Ok_0,
        r matches Err(e) ==> e@ == transpile_result(specifier@, text@)->Err_0,
{
    let sp = deno_ast::ModuleSpecifier::parse(specifier).map_err(|e| e.to_string())?;
    let media_type = deno_ast::MediaType::from_specifier(&sp);
    let params = deno_ast::ParseParams {
        specifier: sp,
        text: text.into(),
        media_type,
        capture_tokens: false,
        scope_analysis: false,
        maybe_syntax: None,
    };
    let parsed = deno_ast::parse_module(params).map_err(|e| e.to_string())?;
    let out = parsed.transpile(&Default::default(), &Default::default(), &Default::default());
    Ok(out.map_err(|e| e.to_string())?.into_source().text)
}

/// A load failure.
#[derive(Debug)]
pub enum LoadError {
    /// The specifier's extension is not in the classification table; the
    /// embedding treats this as fatal.
    UnsupportedExtension,
    /// The source text is malformed under the declared grammar; the
    /// diagnostic text is kept.
    Transform(String),
}

/// A module ready for the engine: what it is, and its final source text.
#[derive(Debug)]
pub struct LoadedModule {
    pub module_type: ModuleType,
    pub code: String,
}

/// Prepares the module named `specifier` from its source text: plain
/// scripts and structured data pass through unmodified, typed or JSX
/// syntax has its leading byte-order mark removed (the parser refuses one)
/// and is transpiled, and an extension outside the table is refused.
/// Re-preparing the same module re-transforms it; nothing is cached.
pub fn load_module(specifier: &str, source: String) -> (r: Result<LoadedModule, LoadError>)
    ensures
        spec_classify(specifier@) is None <==> r matches Err(LoadError::UnsupportedExtension),
        spec_classify(specifier@) == Some(ModuleKind::Script) ==> (r matches Ok(m)
            && m.module_type == ModuleType::JavaScript && m.code@ == source@),
        spec_classify(specifier@) == Some(ModuleKind::Data) ==> (r matches Ok(m)
            && m.module_type == ModuleType::Json && m.code@ == source@),
        spec_classify(specifier@) == Some(ModuleKind::NeedsTransform) ==> match transpile_result(
            specifier@,
            strip_bom(source@),
        ) {
            Ok(t) => (r matches Ok(m) && m.module_type == ModuleType::JavaScript && m.code@ == t),
            Err(e) => (r matches Err(LoadError::Transform(msg)) && msg@ == e),
        },
{
    match classify(specifier) {
        None => Err(LoadError::UnsupportedExtension),
        Some(ModuleKind::Script) => Ok(
            LoadedModule { module_type: ModuleType::JavaScript, code: source },
        ),
        Some(ModuleKind::Data) => Ok(LoadedModule { module_type: ModuleType::Json, code: source }),
        Some(ModuleKind::NeedsTransform) => {
            let cleaned = strip_bom_exec(source);
            proof {
                lemma_strip_bom_head(source@);
            }
            match transpile_call(specifier, cleaned) {
                Ok(c) => Ok(LoadedModule { module_type: ModuleType::JavaScript, code: c }),
                Err(e) => Err(LoadError::Transform(e)),
            }
        },
    }
}

} // verus!
