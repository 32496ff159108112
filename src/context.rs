use vstd::prelude::*;
use crate::engine::{random_index, render_template, rendered, to_toml, toml_text};
use crate::error::GenError;
use crate::strmap::{key_bytes, sorted_keys, StrMap};
use vstd::string::StringSliceAdditionalSpecFns;
use vstd::utf8::{
    decode_utf8, encode_utf8_decode_utf8, encode_utf8_valid_utf8, is_char_boundary_iff_is_leading_byte,
    is_char_boundary_start_end_of_seq,
};

verus! {

/// The first position from `i` on that holds a `.` byte, else the length.
pub open spec fn dot_from(b: Seq<u8>, i: int) -> int
    decreases b.len() - i,
{
    if i < 0 || i >= b.len() {
        b.len() as int
    } else if b[i] == 46u8 {
        i
    } else {
        dot_from(b, i + 1)
    }
}

/// Where a file name's prefix ends: at its first `.` after the first byte,
/// else at its end.
pub open spec fn prefix_end(b: Seq<u8>) -> int {
    if b.len() == 0 {
        0
    } else {
        dot_from(b, 1)
    }
}

/// The logical name of a file: its name up to the first `.` that does not
/// lead it, so `hello.txt` gives `hello`, `a.tar.gz` gives `a` and `.env`
/// stays `.env`.
pub open spec fn file_prefix(name: Seq<char>) -> Seq<char> {
    decode_utf8(key_bytes(name).subrange(0, prefix_end(key_bytes(name))))
}

proof fn lemma_dot_from(b: Seq<u8>, i: int)
    requires
        0 <= i <= b.len(),
    ensures
        i <= dot_from(b, i) <= b.len(),
        dot_from(b, i) < b.len() ==> b[dot_from(b, i)] == 46u8,
    decreases b.len() - i,
{
    if i < b.len() && b[i] != 46u8 {
        lemma_dot_from(b, i + 1);
    }
}

/// The logical name of a file, from the file's name.
pub fn logical_name(file_name: &str) -> (r: String)
    ensures
        r@ == file_prefix(file_name@),
{
    let b = file_name.as_bytes();
    let ghost bytes = key_bytes(file_name@);
    let mut i: usize = if b.len() == 0 { 0 } else { 1 };
    while i < b.len() && b[i] != 46u8
        invariant
            b@ == bytes,
            b@.len() == 0 ==> i == 0,
            b@.len() > 0 ==> 1 <= i,
            i <= b@.len(),
            prefix_end(bytes) == if b@.len() == 0 { 0 } else { dot_from(bytes, i as int) },
        decreases b@.len() - i,
    {
        i = i + 1;
    }
    proof {
        encode_utf8_valid_utf8(file_name@);
        if 0 < i < b.len() {
            is_char_boundary_iff_is_leading_byte(bytes, i as int);
        } else if i == b.len() {
            is_char_boundary_start_end_of_seq(bytes);
        }
    }
    let (head, _) = file_name.split_at(i);
    let r = head.to_owned();
    proof {
        encode_utf8_decode_utf8(head@);
        assert(head.spec_bytes() == bytes.subrange(0, prefix_end(bytes)));
    }
    r
}

/// An entry found directly in a template directory.
#[derive(Debug, Clone, PartialEq, Eq)]
pub enum TemplateEntry {
    /// A regular file: its path, its file name when it can be read as text,
    /// and its text.
    File { path: String, name: Option<String>, content: String },
    /// A choice point: its path, its directory name when one can be derived,
    /// and the (path, text) of each file directly inside it.
    ChoicePoint { path: String, name: Option<String>, candidates: Vec<(String, String)> },
    /// Anything that is neither a regular file nor a directory.
    Other { path: String },
}

/// The error that a single entry raises, if any.
pub open spec fn entry_error(e: TemplateEntry) -> Option<GenError> {
    match e {
        TemplateEntry::File { path, name, .. } => if name is None {
            Some(GenError::InvalidEntry { path })
        } else {
            None
        },
        TemplateEntry::ChoicePoint { path, name, candidates } => if name is None {
            Some(GenError::InvalidEntry { path })
        } else if candidates@.len() == 0 {
            Some(GenError::EmptyChoicePoint { path })
        } else {
            None
        },
        TemplateEntry::Other { path } => Some(GenError::UnsupportedEntry { path }),
    }
}

/// The first error raised among the first `n` entries.
pub open spec fn first_error(entries: Seq<TemplateEntry>, n: int) -> Option<GenError>
    decreases n,
{
    if n <= 0 {
        None
    } else if first_error(entries, n - 1) is Some {
        first_error(entries, n - 1)
    } else {
        entry_error(entries[n - 1])
    }
}

/// Whether `pick` selects a candidate of entry `e` (always so for a plain file).
pub open spec fn pick_ok(e: TemplateEntry, pick: int) -> bool {
    match e {
        TemplateEntry::ChoicePoint { candidates, .. } => candidates@.len() > 0 ==> 0 <= pick
            < candidates@.len(),
        _ => true,
    }
}

/// Whether every pick selects a candidate of its entry.
pub open spec fn picks_ok(entries: Seq<TemplateEntry>, picks: Seq<usize>) -> bool {
    &&& picks.len() == entries.len()
    &&& forall|i: int| 0 <= i < entries.len() ==> pick_ok(#[trigger] entries[i], picks[i] as int)
}

/// The logical name of a valid entry.
pub open spec fn entry_name(e: TemplateEntry) -> Seq<char> {
    match e {
        TemplateEntry::File { name, .. } => file_prefix(name.unwrap()@),
        TemplateEntry::ChoicePoint { name, .. } => name.unwrap()@,
        TemplateEntry::Other { .. } => Seq::empty(),
    }
}

/// The (path, text) that a valid entry binds to its logical name under `pick`.
pub open spec fn entry_choice(e: TemplateEntry, pick: int) -> (Seq<char>, Seq<char>) {
    match e {
        TemplateEntry::File { path, content, .. } => (path@, content@),
        TemplateEntry::ChoicePoint { candidates, .. } => (
            candidates@[pick].0@,
            candidates@[pick].1@,
        ),
        TemplateEntry::Other { .. } => (Seq::empty(), Seq::empty()),
    }
}

/// The manifest made of the first `n` entries: logical name to chosen path.
pub open spec fn manifest_of(entries: Seq<TemplateEntry>, picks: Seq<usize>, n: int) -> Map<
    Seq<char>,
    Seq<char>,
>
    decreases n,
{
    if n <= 0 {
        Map::empty()
    } else {
        manifest_of(entries, picks, n - 1).insert(
            entry_name(entries[n - 1]),
            entry_choice(entries[n - 1], picks[n - 1] as int).0,
        )
    }
}

/// The template sources made of the first `n` entries: logical name to chosen text.
pub open spec fn sources_of(entries: Seq<TemplateEntry>, picks: Seq<usize>, n: int) -> Map<
    Seq<char>,
    Seq<char>,
>
    decreases n,
{
    if n <= 0 {
        Map::empty()
    } else {
        sources_of(entries, picks, n - 1).insert(
            entry_name(entries[n - 1]),
            entry_choice(entries[n - 1], picks[n - 1] as int).1,
        )
    }
}

/// The choice manifest and the template sources for the given picks.
pub struct Resolution {
    pub manifest: StrMap,
    pub sources: StrMap,
}

/// Binds every entry to its logical name: a file to itself, a choice point
/// to the candidate that `picks` selects. Fails on the first entry that has
/// no logical name, is an empty choice point, or is neither file nor directory.
pub fn resolve_with_picks(entries: &Vec<TemplateEntry>, picks: &Vec<usize>) -> (r: Result<
    Resolution,
    GenError,
>)
    requires
        picks_ok(entries@, picks@),
    ensures
        r is Err <==> first_error(entries@, entries@.len() as int) is Some,
        r is Err ==> r == Err::<Resolution, GenError>(
            first_error(entries@, entries@.len() as int).unwrap(),
        ),
        r is Ok ==> {
            let res = r.unwrap();
            &&& res.manifest.wf()
            &&& res.sources.wf()
            &&& res.manifest@ == manifest_of(entries@, picks@, entries@.len() as int)
            &&& res.sources@ == sources_of(entries@, picks@, entries@.len() as int)
        },
{
    let mut manifest = StrMap::new();
    let mut sources = StrMap::new();
    let mut i: usize = 0;
    while i < entries.len()
        invariant
            picks_ok(entries@, picks@),
            0 <= i <= entries@.len(),
            first_error(entries@, i as int) is None,
            manifest.wf(),
            sources.wf(),
            manifest@ == manifest_of(entries@, picks@, i as int),
            sources@ == sources_of(entries@, picks@, i as int),
        decreases entries@.len() - i,
    {
        proof {
            assert(pick_ok(entries@[i as int], picks@[i as int] as int));
        }
        match &entries[i] {
            TemplateEntry::File { path, name, content } => match name {
                Some(file_name) => {
                    let n = logical_name(file_name.as_str());
                    manifest.insert(n.clone(), path.clone());
                    sources.insert(n, content.clone());
                },
                None => {
                    proof { lemma_first_error_stays(entries@, i as int + 1); }
                    return Err(GenError::InvalidEntry { path: path.clone() });
                },
            },
            TemplateEntry::ChoicePoint { path, name, candidates } => match name {
                Some(n) => {
                    if candidates.len() == 0 {
                        proof { lemma_first_error_stays(entries@, i as int + 1); }
                        return Err(GenError::EmptyChoicePoint { path: path.clone() });
                    }
                    let k = picks[i];
                    manifest.insert(n.clone(), candidates[k].0.clone());
                    sources.insert(n.clone(), candidates[k].1.clone());
                },
                None => {
                    proof { lemma_first_error_stays(entries@, i as int + 1); }
                    return Err(GenError::InvalidEntry { path: path.clone() });
                },
            },
            TemplateEntry::Other { path } => {
                proof { lemma_first_error_stays(entries@, i as int + 1); }
                return Err(GenError::UnsupportedEntry { path: path.clone() });
            },
        }
        i = i + 1;
    }
    Ok(Resolution { manifest, sources })
}

/// The manifest and the template sources agree: every logical name that the
/// manifest records is bound, in both, to one same choice of one entry of
/// that name, so the recorded path is the file whose text was rendered.
pub proof fn lemma_manifest_matches_sources(entries: Seq<TemplateEntry>, picks: Seq<usize>, n: int)
    requires
        0 <= n <= entries.len(),
        picks.len() == entries.len(),
    ensures
        manifest_of(entries, picks, n).dom() == sources_of(entries, picks, n).dom(),
        forall|k: Seq<char>| #[trigger] manifest_of(entries, picks, n).contains_key(k) ==> exists|i: int|
            0 <= i < n && entry_name(#[trigger] entries[i]) == k && entry_choice(entries[i], picks[i] as int)
                == (manifest_of(entries, picks, n)[k], sources_of(entries, picks, n)[k]),
    decreases n,
{
    if n > 0 {
        lemma_manifest_matches_sources(entries, picks, n - 1);
        let m = manifest_of(entries, picks, n);
        let src = sources_of(entries, picks, n);
        let last = entry_name(entries[n - 1]);
        assert forall|k: Seq<char>| #[trigger] m.contains_key(k) implies exists|i: int|
            0 <= i < n && entry_name(#[trigger] entries[i]) == k && entry_choice(entries[i], picks[i] as int)
                == (m[k], src[k]) by {
            if k == last {
                assert(entry_name(entries[n - 1]) == k);
            } else {
                assert(manifest_of(entries, picks, n - 1).contains_key(k));
            }
        }
        assert(m.dom() =~= src.dom());
    } else {
        assert(manifest_of(entries, picks, n).dom() =~= sources_of(entries, picks, n).dom());
    }
}

/// Once an error is raised among the first `n` entries, it stays the first.
proof fn lemma_first_error_stays(entries: Seq<TemplateEntry>, n: int)
    requires
        0 <= n <= entries.len(),
        first_error(entries, n) is Some,
    ensures
        first_error(entries, entries.len() as int) == first_error(entries, n),
    decreases entries.len() - n,
{
    if n < entries.len() {
        lemma_first_error_stays(entries, n + 1);
    }
}

/// The context after rendering, in order, the first `n` of `keys` as templates
/// among `templates`, each against the context left by the ones before it and
/// stored back under its own key; `None` if one of them fails to render.
pub open spec fn compiled(
    templates: Map<Seq<char>, Seq<char>>,
    keys: Seq<Seq<char>>,
    ctx: Map<Seq<char>, Seq<char>>,
    n: int,
) -> Option<Map<Seq<char>, Seq<char>>>
    decreases n,
{
    if n <= 0 {
        Some(ctx)
    } else {
        match compiled(templates, keys, ctx, n - 1) {
            None => None,
            Some(c) => match rendered(templates, keys[n - 1], c) {
                None => None,
                Some(out) => Some(c.insert(keys[n - 1], out)),
            },
        }
    }
}

/// The context after the whole first pass over `templates`, in key order.
pub open spec fn compiled_all(
    templates: Map<Seq<char>, Seq<char>>,
    ctx: Map<Seq<char>, Seq<char>>,
) -> Option<Map<Seq<char>, Seq<char>>> {
    compiled(templates, sorted_keys(templates), ctx, templates.dom().len() as int)
}

/// Renders every template of `templates`, in the lexicographic order of
/// their names, against the current context, and stores each result in the
/// context under the template's name, so that later templates see the
/// results of earlier ones.
pub fn compile_context(templates: &StrMap, context: &mut StrMap) -> (r: Result<(), GenError>)
    requires
        templates.wf(),
        old(context).wf(),
    ensures
        final(context).wf(),
        r is Ok <==> compiled_all(templates@, old(context)@) is Some,
        r is Ok ==> final(context)@ == compiled_all(templates@, old(context)@).unwrap(),
        r is Err ==> exists|i: int|
            0 <= i < templates@.len() && compiled(
                templates@,
                sorted_keys(templates@),
                old(context)@,
                i,
            ) is Some && #[trigger] compiled(
                templates@,
                sorted_keys(templates@),
                old(context)@,
                i + 1,
            ) is None && (r matches Err(GenError::TemplateRenderError { name }) && name@
                == sorted_keys(templates@)[i]),
{
    let ghost start = context@;
    proof { templates.lemma_len(); }
    let n = templates.len();
    let mut i: usize = 0;
    while i < n
        invariant
            templates.wf(),
            context.wf(),
            n == templates.key_seq().len(),
            n == templates@.len(),
            start == old(context)@,
            templates.key_seq() == sorted_keys(templates@),
            0 <= i <= n,
            compiled(templates@, templates.key_seq(), start, i as int) == Some(context@),
        decreases n - i,
    {
        let key = templates.key_at(i);
        match render_template(templates, key.as_str(), context) {
            Some(out) => {
                context.insert(key.clone(), out);
            },
            None => {
                proof {
                    lemma_compiled_stays_none(templates@, templates.key_seq(), start, i as int + 1);
                    assert(compiled(templates@, sorted_keys(templates@), start, i as int + 1) is None);
                    assert(compiled_all(templates@, start) is None);
                }
                let name = key.clone();
                assert(name@ == sorted_keys(templates@)[i as int]);
                return Err(GenError::TemplateRenderError { name });
            },
        }
        i = i + 1;
    }
    Ok(())
}

/// Once a render fails, the whole pass fails.
proof fn lemma_compiled_stays_none(
    templates: Map<Seq<char>, Seq<char>>,
    keys: Seq<Seq<char>>,
    ctx: Map<Seq<char>, Seq<char>>,
    n: int,
)
    requires
        0 <= n <= keys.len(),
        compiled(templates, keys, ctx, n) is None,
    ensures
        compiled(templates, keys, ctx, keys.len() as int) is None,
    decreases keys.len() - n,
{
    if n < keys.len() {
        lemma_compiled_stays_none(templates, keys, ctx, n + 1);
    }
}

/// Draws one candidate index for each choice point.
fn draw_picks(entries: &Vec<TemplateEntry>) -> (r: Vec<usize>)
    ensures
        picks_ok(entries@, r@),
{
    let mut picks: Vec<usize> = Vec::new();
    let mut i: usize = 0;
    while i < entries.len()
        invariant
            0 <= i <= entries@.len(),
            picks@.len() == i,
            forall|j: int| 0 <= j < i ==> pick_ok(#[trigger] entries@[j], picks@[j] as int),
        decreases entries@.len() - i,
    {
        let mut k: usize = 0;
        if let TemplateEntry::ChoicePoint { candidates, .. } = &entries[i] {
            if candidates.len() > 0 {
                k = random_index(candidates.len());
            }
        }
        picks.push(k);
        i = i + 1;
    }
    picks
}

/// What the first rendering pass with the given picks leaves: the error of
/// the first invalid entry with the context untouched; else a manifest of the
/// bindings exactly when every bound template renders, with the context that
/// the rendering produced.
pub open spec fn pass_outcome(
    entries: Seq<TemplateEntry>,
    picks: Seq<usize>,
    before: Map<Seq<char>, Seq<char>>,
    after: Map<Seq<char>, Seq<char>>,
    r: Result<StrMap, GenError>,
) -> bool {
    let n = entries.len() as int;
    let templates = sources_of(entries, picks, n);
    &&& first_error(entries, n) is Some ==> r == Err::<StrMap, GenError>(
        first_error(entries, n).unwrap(),
    ) && after == before
    &&& first_error(entries, n) is None ==> (r is Ok <==> compiled_all(templates, before) is Some)
    &&& r is Ok ==> {
        &&& r.unwrap().wf()
        &&& r.unwrap()@ == manifest_of(entries, picks, n)
        &&& after == compiled_all(templates, before).unwrap()
    }
}

/// The first rendering pass with the given picks: resolves the entries of a
/// template directory, then renders each bound template into the context.
/// Returns the choice manifest.
pub fn set_pre_compile_context_with(
    entries: &Vec<TemplateEntry>,
    picks: &Vec<usize>,
    context: &mut StrMap,
) -> (r: Result<StrMap, GenError>)
    requires
        picks_ok(entries@, picks@),
        old(context).wf(),
    ensures
        final(context).wf(),
        pass_outcome(entries@, picks@, old(context)@, final(context)@, r),
{
    let res = resolve_with_picks(entries, picks)?;
    compile_context(&res.sources, context)?;
    Ok(res.manifest)
}

/// The first rendering pass: draws one candidate of each choice point
/// uniformly at random, binds every entry to its logical name, and renders
/// each bound template into the context in key order. Returns the choice
/// manifest.
pub fn set_pre_compile_context(entries: &Vec<TemplateEntry>, context: &mut StrMap) -> (r: Result<
    StrMap,
    GenError,
>)
    requires
        old(context).wf(),
    ensures
        final(context).wf(),
        exists|picks: Seq<usize>|
            picks_ok(entries@, picks) && pass_outcome(
                entries@,
                picks,
                old(context)@,
                final(context)@,
                r,
            ),
{
    let picks = draw_picks(entries);
    set_pre_compile_context_with(entries, &picks, context)
}

/// The text of the choice file that records a manifest.
pub fn manifest_text(manifest: &StrMap) -> (r: Option<String>)
    ensures
        r is Some <==> toml_text(manifest@) is Some,
        r is Some ==> r.unwrap()@ == toml_text(manifest@).unwrap(),
{
    to_toml(manifest)
}

} // verus!
