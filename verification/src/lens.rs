use vstd::prelude::*;
use vstd::hash_map::StringHashMap;
use vstd::string::StringExecFns;
use crate::types::{
    CodeLens, CodeLensRequest, Command, Document, EditorMeta, LensError, OffsetEncoding, Range,
    ServerCapabilities, VersionedCommand,
};
use crate::codec::{
    argument_payload, dec_chars, dec_of, double_sections, editor_quote, encode_argument_payload,
    equote, join_space_spec, section_doubled,
};
use crate::outside::{arguments_json, file_uri_string, file_uri_text, is_absolute_path,
    join_with_space, json_args_text, string_from_chars};

verus! {

/// The session context this feature reads and writes: the capabilities
/// the server advertised, the negotiated offset encoding, the open
/// documents, and the most recent ordered lens list per document.
pub struct Context {
    pub capabilities: Option<ServerCapabilities>,
    pub offset_encoding: OffsetEncoding,
    pub documents: StringHashMap<Document>,
    pub code_lenses: StringHashMap<Vec<CodeLens>>,
}

/// Whether the connected server advertised code-lens support.
pub open spec fn has_code_lens_support(ctx: Context) -> bool {
    ctx.capabilities is Some && ctx.capabilities->0.code_lens_provider is Some
}

impl Context {
    /// A fresh session context with no open documents and no stored
    /// lenses.
    pub fn new(capabilities: Option<ServerCapabilities>, offset_encoding: OffsetEncoding) -> (ctx:
        Context)
        ensures
            ctx.capabilities == capabilities,
            ctx.offset_encoding == offset_encoding,
            ctx.documents@ == Map::<Seq<char>, Document>::empty(),
            ctx.code_lenses@ == Map::<Seq<char>, Vec<CodeLens>>::empty(),
    {
        Context {
            capabilities,
            offset_encoding,
            documents: StringHashMap::new(),
            code_lenses: StringHashMap::new(),
        }
    }

    /// Records `document` as open under `buffile`.
    pub fn open_document(&mut self, buffile: String, document: Document)
        ensures
            final(self).documents@ == old(self).documents@.insert(buffile@, document),
            final(self).code_lenses@ == old(self).code_lenses@,
            final(self).capabilities == old(self).capabilities,
            final(self).offset_encoding == old(self).offset_encoding,
    {
        self.documents.insert(buffile, document);
    }

    /// The stored lens list for `buffile`, if a response ever arrived for
    /// it.
    pub fn lenses_for<'a>(&'a self, buffile: &str) -> (r: Option<&'a Vec<CodeLens>>)
        ensures
            match r {
                Some(v) => self.code_lenses@.contains_key(buffile@) && *v
                    == self.code_lenses@[buffile@],
                None => !self.code_lenses@.contains_key(buffile@),
            },
    {
        self.code_lenses.get(buffile)
    }
}

// ---------------------------------------------------------------------------
// Line overlap
// ---------------------------------------------------------------------------

/// Whether the line spans of `a` and `b` intersect.  Columns are ignored
/// for this comparison.
pub open spec fn lines_overlap_spec(a: Range, b: Range) -> bool {
    a.start.line <= b.end.line && a.end.line >= b.start.line
}

/// Whether the line spans of `a` and `b` intersect.
pub fn ranges_lines_overlap(a: Range, b: Range) -> (r: bool)
    ensures
        r == lines_overlap_spec(a, b),
{
    a.start.line <= b.end.line && a.end.line >= b.start.line
}

// ---------------------------------------------------------------------------
// Ordering lenses by start line
// ---------------------------------------------------------------------------

/// The key lenses are ordered by: the start line of their range.
pub open spec fn lens_line(l: CodeLens) -> u32 {
    l.range.start.line
}

/// Inserts `x` into `s` after every entry whose key is at most `x`'s, so
/// that entries with equal keys keep their relative order.
pub open spec fn insert_by_line(s: Seq<CodeLens>, x: CodeLens) -> Seq<CodeLens>
    decreases s.len(),
{
    if s.len() == 0 {
        seq![x]
    } else if lens_line(s.last()) <= lens_line(x) {
        s.push(x)
    } else {
        insert_by_line(s.drop_last(), x).push(s.last())
    }
}

/// The stable sort of `s`, ascending by start line: each entry inserted,
/// in arrival order, after the entries with keys at most its own.
pub open spec fn sort_by_line(s: Seq<CodeLens>) -> Seq<CodeLens>
    decreases s.len(),
{
    if s.len() == 0 {
        Seq::empty()
    } else {
        insert_by_line(sort_by_line(s.drop_last()), s.last())
    }
}

/// Whether `s` is sorted ascending by start line.
pub open spec fn sorted_by_line(s: Seq<CodeLens>) -> bool {
    forall|i: int, j: int| 0 <= i <= j < s.len() ==> lens_line(s[i]) <= lens_line(s[j])
}

proof fn lemma_insert_by_line_at(s: Seq<CodeLens>, x: CodeLens, idx: int)
    requires
        0 <= idx <= s.len(),
        forall|j: int| idx <= j < s.len() ==> lens_line(s[j]) > lens_line(x),
        idx > 0 ==> lens_line(s[idx - 1]) <= lens_line(x),
    ensures
        insert_by_line(s, x) == s.take(idx) + seq![x] + s.skip(idx),
    decreases s.len(),
{
    if idx == s.len() {
        if s.len() == 0 {
            assert(insert_by_line(s, x) == seq![x]);
            assert(s.take(idx) + seq![x] + s.skip(idx) =~= seq![x]);
        } else {
            assert(lens_line(s[idx - 1]) <= lens_line(x));
            assert(s.last() == s[idx - 1]);
            assert(insert_by_line(s, x) == s.push(x));
            assert(s.take(idx) + seq![x] + s.skip(idx) =~= s.push(x));
        }
    } else {
        assert(lens_line(s[s.len() - 1]) > lens_line(x));
        assert(insert_by_line(s, x) == insert_by_line(s.drop_last(), x).push(s.last()));
        lemma_insert_by_line_at(s.drop_last(), x, idx);
        assert((s.drop_last().take(idx) + seq![x] + s.drop_last().skip(idx)).push(s.last())
            =~= s.take(idx) + seq![x] + s.skip(idx));
    }
}

proof fn lemma_insert_by_line_sorted(s: Seq<CodeLens>, x: CodeLens)
    requires
        sorted_by_line(s),
    ensures
        sorted_by_line(insert_by_line(s, x)),
        insert_by_line(s, x).len() == s.len() + 1,
    decreases s.len(),
{
    if s.len() == 0 {
    } else if lens_line(s.last()) <= lens_line(x) {
        assert(sorted_by_line(s.push(x)));
    } else {
        assert(sorted_by_line(s.drop_last()));
        lemma_insert_by_line_sorted(s.drop_last(), x);
        let t = insert_by_line(s.drop_last(), x);
        assert forall|k: int| 0 <= k < t.len() implies lens_line(t[k]) <= lens_line(s.last()) by {
            lemma_insert_by_line_members(s.drop_last(), x, k);
        }
        assert(sorted_by_line(t.push(s.last())));
    }
}

proof fn lemma_insert_by_line_members(s: Seq<CodeLens>, x: CodeLens, k: int)
    requires
        0 <= k < insert_by_line(s, x).len(),
    ensures
        insert_by_line(s, x)[k] == x || exists|j: int| 0 <= j < s.len() && insert_by_line(s, x)[k] == s[j],
    decreases s.len(),
{
    if s.len() == 0 {
    } else if lens_line(s.last()) <= lens_line(x) {
        if k < s.len() {
            assert(insert_by_line(s, x)[k] == s[k]);
        }
    } else {
        if k < insert_by_line(s, x).len() - 1 {
            lemma_insert_by_line_members(s.drop_last(), x, k);
            assert(insert_by_line(s, x)[k] == insert_by_line(s.drop_last(), x)[k]);
            if insert_by_line(s.drop_last(), x)[k] != x {
                let j = choose|j: int| 0 <= j < s.drop_last().len()
                    && insert_by_line(s.drop_last(), x)[k] == s.drop_last()[j];
                assert(s.drop_last()[j] == s[j]);
            }
        } else {
            assert(insert_by_line(s, x)[k] == s.last());
            assert(s.last() == s[s.len() - 1]);
        }
    }
}

proof fn lemma_insert_by_line_multiset(s: Seq<CodeLens>, x: CodeLens)
    ensures
        insert_by_line(s, x).to_multiset() == s.push(x).to_multiset(),
    decreases s.len(),
{
    broadcast use vstd::seq_lib::group_to_multiset_ensures;

    if s.len() == 0 {
        assert(insert_by_line(s, x) =~= s.push(x));
    } else if lens_line(s.last()) <= lens_line(x) {
    } else {
        lemma_insert_by_line_multiset(s.drop_last(), x);
        assert(insert_by_line(s, x) == insert_by_line(s.drop_last(), x).push(s.last()));
        assert(insert_by_line(s, x).to_multiset()
            == insert_by_line(s.drop_last(), x).to_multiset().insert(s.last()));
        assert(s.drop_last().push(x).to_multiset() == s.drop_last().to_multiset().insert(x));
        assert(s.push(x).to_multiset() == s.to_multiset().insert(x));
        assert(s.drop_last().push(s.last()) =~= s);
        assert(s.to_multiset() == s.drop_last().to_multiset().insert(s.last()));
        assert(insert_by_line(s, x).to_multiset()
            == s.drop_last().to_multiset().insert(x).insert(s.last()));
        assert(s.drop_last().to_multiset().insert(x).insert(s.last())
            =~= s.drop_last().to_multiset().insert(s.last()).insert(x));
    }
}

/// The stored sequence for any response: sorted ascending by start line,
/// of the same length, and holding exactly the response's entries.
pub proof fn lemma_sort_by_line_correct(s: Seq<CodeLens>)
    ensures
        sorted_by_line(sort_by_line(s)),
        sort_by_line(s).len() == s.len(),
        sort_by_line(s).to_multiset() == s.to_multiset(),
    decreases s.len(),
{
    broadcast use vstd::seq_lib::group_to_multiset_ensures;

    if s.len() == 0 {
    } else {
        lemma_sort_by_line_correct(s.drop_last());
        lemma_insert_by_line_sorted(sort_by_line(s.drop_last()), s.last());
        lemma_insert_by_line_multiset(sort_by_line(s.drop_last()), s.last());
        assert(sort_by_line(s.drop_last()).push(s.last()).to_multiset()
            == sort_by_line(s.drop_last()).to_multiset().insert(s.last()));
        assert(s.drop_last().push(s.last()) =~= s);
        assert(s.to_multiset() == s.drop_last().to_multiset().insert(s.last()));
    }
}

/// The entries of `s` whose range starts at `line`, in order.
pub open spec fn with_line(s: Seq<CodeLens>, line: u32) -> Seq<CodeLens> {
    s.filter(|l: CodeLens| lens_line(l) == line)
}

proof fn lemma_insert_by_line_with_line(s: Seq<CodeLens>, x: CodeLens, line: u32)
    ensures
        with_line(insert_by_line(s, x), line) == (if lens_line(x) == line {
            with_line(s, line).push(x)
        } else {
            with_line(s, line)
        }),
    decreases s.len(),
{
    let p = |l: CodeLens| lens_line(l) == line;
    reveal_with_fuel(Seq::filter, 2);
    if s.len() == 0 {
        assert(Seq::<CodeLens>::empty().filter(p) =~= Seq::<CodeLens>::empty());
        assert(seq![x].drop_last() =~= Seq::<CodeLens>::empty());
        assert(seq![x].last() == x);
        assert(s.filter(p) =~= Seq::<CodeLens>::empty());
        if p(x) {
            assert(seq![x].filter(p) =~= Seq::<CodeLens>::empty().push(x));
        }
    } else if lens_line(s.last()) <= lens_line(x) {
        assert(s.push(x).drop_last() =~= s);
        assert(s.push(x).last() == x);
    } else {
        lemma_insert_by_line_with_line(s.drop_last(), x, line);
        let t = insert_by_line(s.drop_last(), x);
        assert(insert_by_line(s, x) == t.push(s.last()));
        assert(t.push(s.last()).drop_last() =~= t);
        assert(t.push(s.last()).last() == s.last());
        assert(s.drop_last().push(s.last()) =~= s);
        assert(s.filter(p) == (if p(s.last()) {
            s.drop_last().filter(p).push(s.last())
        } else {
            s.drop_last().filter(p)
        }));
        if p(x) {
            assert(lens_line(s.last()) > lens_line(x));
            assert(!p(s.last()));
        }
    }
}

/// Entries with equal start lines keep their arrival order: for every
/// start line, the sorted sequence lists exactly the response's entries
/// with that line, in response order.
pub proof fn lemma_sort_by_line_stable(s: Seq<CodeLens>, line: u32)
    ensures
        with_line(sort_by_line(s), line) == with_line(s, line),
    decreases s.len(),
{
    let p = |l: CodeLens| lens_line(l) == line;
    reveal_with_fuel(Seq::filter, 2);
    if s.len() == 0 {
    } else {
        lemma_sort_by_line_stable(s.drop_last(), line);
        lemma_insert_by_line_with_line(sort_by_line(s.drop_last()), s.last(), line);
        assert(s.drop_last().push(s.last()) =~= s);
        assert(s.filter(p) == (if p(s.last()) {
            s.drop_last().filter(p).push(s.last())
        } else {
            s.drop_last().filter(p)
        }));
    }
}

/// Sorts `lenses` ascending by start line; entries with equal start lines
/// keep their relative order.
pub fn sort_lenses(lenses: Vec<CodeLens>) -> (r: Vec<CodeLens>)
    ensures
        r@ == sort_by_line(lenses@),
{
    let mut out: Vec<CodeLens> = Vec::new();
    let mut rest = lenses;
    let ghost input = rest@;
    let total: usize = rest.len();
    let mut i: usize = 0;
    loop
        invariant_except_break
            i <= input.len(),
            input.len() == total,
            rest@ == input.skip(i as int),
            out@ == sort_by_line(input.take(i as int)),
        ensures
            out@ == sort_by_line(input),
        decreases input.len() - i,
    {
        if rest.len() == 0 {
            proof {
                assert(input.take(i as int) =~= input);
            }
            break;
        }
        let x = rest.remove(0);
        proof {
            assert(input.skip(i as int).remove(0) =~= input.skip(i as int + 1));
            assert(x == input[i as int]);
        }
        let line = x.range.start.line;
        let mut idx: usize = out.len();
        while idx > 0 && out[idx - 1].range.start.line > line
            invariant
                idx <= out@.len(),
                forall|j: int| idx <= j < out@.len() ==> lens_line(out@[j]) > line,
            decreases idx,
        {
            idx = idx - 1;
        }
        let ghost out0 = out@;
        out.insert(idx, x);
        proof {
            assert(lens_line(x) == line);
            lemma_insert_by_line_at(out0, x, idx as int);
            assert(out0.insert(idx as int, x) =~= out0.take(idx as int) + seq![x] + out0.skip(idx as int));
            assert(input.take(i as int + 1).drop_last() =~= input.take(i as int));
            assert(input.take(i as int + 1).last() == input[i as int]);
            assert(out@ == sort_by_line(input.take(i as int + 1)));
        }
        i = i + 1;
    }
    out
}

// ---------------------------------------------------------------------------
// Matching stored lenses against a selection
// ---------------------------------------------------------------------------

/// The stored lenses whose line span intersects the selection's, in
/// stored order.
pub open spec fn matching_spec(lenses: Seq<CodeLens>, selection: Range) -> Seq<CodeLens> {
    lenses.filter(|l: CodeLens| lines_overlap_spec(l.range, selection))
}

/// The stored lenses whose line span intersects the selection's.
pub fn matching_lenses<'a>(lenses: &'a Vec<CodeLens>, selection: Range) -> (r: Vec<&'a CodeLens>)
    ensures
        r@.map_values(|l: &CodeLens| *l) == matching_spec(lenses@, selection),
{
    let mut r: Vec<&'a CodeLens> = Vec::new();
    let mut i: usize = 0;
    while i < lenses.len()
        invariant
            i <= lenses@.len(),
            r@.map_values(|l: &CodeLens| *l) == matching_spec(lenses@.take(i as int), selection),
        decreases lenses@.len() - i,
    {
        let l = &lenses[i];
        let ghost r0 = r@;
        if ranges_lines_overlap(l.range, selection) {
            r.push(l);
        }
        proof {
            assert(lenses@.take(i as int + 1).drop_last() =~= lenses@.take(i as int));
            assert(lenses@.take(i as int + 1).last() == lenses@[i as int]);
            reveal_with_fuel(Seq::filter, 2);
            if lines_overlap_spec(lenses@[i as int].range, selection) {
                assert(r@.map_values(|l: &CodeLens| *l)
                    =~= r0.map_values(|l: &CodeLens| *l).push(lenses@[i as int]));
            }
            assert(matching_spec(lenses@.take(i as int + 1), selection)
                == if lines_overlap_spec(lenses@[i as int].range, selection) {
                    matching_spec(lenses@.take(i as int), selection).push(lenses@[i as int])
                } else {
                    matching_spec(lenses@.take(i as int), selection)
                });
        }
        i = i + 1;
    }
    proof {
        assert(lenses@.take(lenses@.len() as int) =~= lenses@);
    }
    r
}

// ---------------------------------------------------------------------------
// The emitted instructions
// ---------------------------------------------------------------------------

/// The fixed user-visible error when no stored lens overlaps the
/// selection.
pub open spec fn no_lens_command() -> Seq<char> {
    "lsp-show-error 'no code lens in selection'"@
}

/// The user-visible error when a matched lens carries no resolved
/// command.
pub open spec fn missing_command_command() -> Seq<char> {
    "lsp-show-error 'code lens has no command'"@
}

/// The arguments a command is invoked with: its argument list, or the
/// empty list when absent.
pub open spec fn command_args(c: Command) -> Seq<serde_json::Value> {
    match c.arguments {
        Some(a) => a@,
        None => Seq::empty(),
    }
}

/// One selectable choice: the lens's quoted title, then the quoted
/// invocation naming the command identifier and the doubly-encoded
/// argument payload.
pub open spec fn invocation_fragment(c: Command) -> Seq<char> {
    equote(c.title@) + seq![' ']
        + equote("lsp-execute-command "@ + c.command@ + seq![' '] + argument_payload(json_args_text(command_args(c))))
}

/// Whether every matched lens carries a resolved command.
pub open spec fn all_have_commands(matched: Seq<CodeLens>) -> bool {
    forall|i: int| 0 <= i < matched.len() ==> matched[i].command is Some
}

/// The compound instruction presenting every matched lens as a choice.
pub open spec fn perform_command(matched: Seq<CodeLens>) -> Seq<char> {
    "lsp-perform-code-lens "@
        + join_space_spec(matched.map_values(|l: CodeLens| invocation_fragment(l.command->0)))
}

/// The instruction emitted for a selection: the fixed error when nothing
/// matched, a reported error when a matched lens has no command, and
/// otherwise the compound choice instruction.
pub open spec fn selection_command(matched: Seq<CodeLens>) -> Seq<char> {
    if matched.len() == 0 {
        no_lens_command()
    } else if !all_have_commands(matched) {
        missing_command_command()
    } else {
        perform_command(matched)
    }
}

fn build_fragment(c: &Command) -> (r: String)
    ensures
        r@ == invocation_fragment(*c),
{
    let args_json: String = match &c.arguments {
        Some(a) => arguments_json(a),
        None => {
            let empty: Vec<serde_json::Value> = Vec::new();
            arguments_json(&empty)
        },
    };
    let payload = encode_argument_payload(args_json.as_str());
    let mut ec = String::from_str("lsp-execute-command ");
    ec.append(c.command.as_str());
    ec.append(" ");
    ec.append(payload.as_str());
    let qec = editor_quote(ec.as_str());
    let mut frag = editor_quote(c.title.as_str());
    frag.append(" ");
    frag.append(qec.as_str());
    proof {
        reveal_strlit(" ");
        assert(" "@ =~= seq![' ']);
    }
    frag
}

/// Builds the instruction emitted for the matched lenses.
pub fn build_selection_command(matched: &Vec<&CodeLens>) -> (r: String)
    ensures
        r@ == selection_command(matched@.map_values(|l: &CodeLens| *l)),
{
    let ghost ms = matched@.map_values(|l: &CodeLens| *l);
    if matched.len() == 0 {
        return String::from_str("lsp-show-error 'no code lens in selection'");
    }
    let mut i: usize = 0;
    while i < matched.len()
        invariant
            i <= matched@.len(),
            ms == matched@.map_values(|l: &CodeLens| *l),
            forall|j: int| 0 <= j < i ==> ms[j].command is Some,
        decreases matched@.len() - i,
    {
        if matched[i].command.is_none() {
            proof {
                assert(ms[i as int].command is None);
            }
            return String::from_str("lsp-show-error 'code lens has no command'");
        }
        i = i + 1;
    }
    let ghost target = ms.map_values(|l: CodeLens| invocation_fragment(l.command->0));
    let mut frags: Vec<String> = Vec::new();
    let mut k: usize = 0;
    while k < matched.len()
        invariant
            k <= matched@.len(),
            ms == matched@.map_values(|l: &CodeLens| *l),
            target == ms.map_values(|l: CodeLens| invocation_fragment(l.command->0)),
            all_have_commands(ms),
            frags.deep_view() == target.take(k as int),
        decreases matched@.len() - k,
    {
        let l: &CodeLens = matched[k];
        let ghost frags0 = frags.deep_view();
        match &l.command {
            Some(c) => {
                let f = build_fragment(c);
                frags.push(f);
                proof {
                    assert(ms[k as int] == *matched@[k as int]);
                    assert(frags.deep_view() =~= frags0.push(f@));
                    assert(target.take(k as int + 1) =~= target.take(k as int).push(target[k as int]));
                }
            },
            None => {
                proof {
                    assert(ms[k as int].command is Some);
                    assert(false);
                }
            },
        }
        k = k + 1;
    }
    proof {
        assert(target.take(matched@.len() as int) =~= target);
    }
    let joined = join_with_space(&frags);
    let mut cmd = String::from_str("lsp-perform-code-lens ");
    cmd.append(joined.as_str());
    cmd
}

// ---------------------------------------------------------------------------
// The three handlers
// ---------------------------------------------------------------------------

/// Issues the code-lens request for the triggering document: fails with a
/// capability error when the server did not advertise support, and
/// otherwise builds the request carrying the document's canonical URI.
pub fn text_document_code_lens(meta: &EditorMeta, ctx: &Context) -> (r: Result<
    CodeLensRequest,
    LensError,
>)
    ensures
        r == Err::<CodeLensRequest, LensError>(LensError::CapabilityMissing)
            <==> !has_code_lens_support(*ctx),
        r is Ok ==> has_code_lens_support(*ctx) && r->Ok_0.uri@ == file_uri_text(meta.buffile@),
        has_code_lens_support(*ctx) && is_absolute_path(meta.buffile@) ==> r is Ok,
{
    let supported = match &ctx.capabilities {
        Some(caps) => caps.code_lens_provider.is_some(),
        None => false,
    };
    if !supported {
        return Err(LensError::CapabilityMissing);
    }
    match file_uri_string(meta.buffile.as_str()) {
        Some(uri) => Ok(CodeLensRequest { uri }),
        None => Err(LensError::InvalidFilePath),
    }
}

/// The inner display instruction: sets the buffer-scoped option carrying
/// the document version, the overlay string, and the fallback sign
/// expression.
pub open spec fn display_inner(version: u64, line_flags: Seq<char>) -> Seq<char> {
    "evaluate-commands \"set-option buffer lsp_error_lines "@ + dec_of(version as nat) + " "@
        + line_flags + " '0|%opt[lsp_diagnostic_line_error_sign]'\""@
}

/// The full display instruction: the inner instruction, its delimiter
/// doubled, wrapped so it runs against the triggering buffer.
pub open spec fn display_command(buffile: Seq<char>, version: u64, line_flags: Seq<char>) -> Seq<
    char,
> {
    "evaluate-commands -buffer "@ + equote(buffile) + " %§"@
        + section_doubled(display_inner(version, line_flags)) + "§"@
}

fn build_display_command(buffile: &str, version: u64, line_flags: &str) -> (r: String)
    ensures
        r@ == display_command(buffile@, version, line_flags@),
{
    let mut inner = String::from_str("evaluate-commands \"set-option buffer lsp_error_lines ");
    let vchars = dec_chars(version);
    let vstr = string_from_chars(&vchars);
    inner.append(vstr.as_str());
    inner.append(" ");
    inner.append(line_flags);
    inner.append(" '0|%opt[lsp_diagnostic_line_error_sign]'\"");
    let doubled = double_sections(inner.as_str());
    let quoted = editor_quote(buffile);
    let mut cmd = String::from_str("evaluate-commands -buffer ");
    cmd.append(quoted.as_str());
    cmd.append(" %§");
    cmd.append(doubled.as_str());
    cmd.append("§");
    cmd
}

/// Handles the asynchronous response for a document: sorts the returned
/// lenses by start line (an absent response counts as empty), overwrites
/// the document's store entry wholesale, and emits the version-guarded
/// display instruction.  `line_flags` is the diagnostic overlay string
/// recomputed by its own collaborator for the same document.  A response
/// for a document that is no longer open is discarded with no effect.
pub fn editor_code_lens(
    meta: &EditorMeta,
    result: Option<Vec<CodeLens>>,
    line_flags: &str,
    ctx: &mut Context,
) -> (r: Option<VersionedCommand>)
    ensures
        !old(ctx).documents@.contains_key(meta.buffile@) ==> {
            &&& r is None
            &&& final(ctx).code_lenses@ == old(ctx).code_lenses@
            &&& final(ctx).documents@ == old(ctx).documents@
            &&& final(ctx).capabilities == old(ctx).capabilities
            &&& final(ctx).offset_encoding == old(ctx).offset_encoding
        },
        old(ctx).documents@.contains_key(meta.buffile@) ==> {
            let response = match result {
                Some(v) => v@,
                None => Seq::<CodeLens>::empty(),
            };
            let version = old(ctx).documents@[meta.buffile@].version;
            &&& final(ctx).documents@ == old(ctx).documents@
            &&& final(ctx).capabilities == old(ctx).capabilities
            &&& final(ctx).offset_encoding == old(ctx).offset_encoding
            &&& final(ctx).code_lenses@.contains_key(meta.buffile@)
            &&& final(ctx).code_lenses@[meta.buffile@]@ == sort_by_line(response)
            &&& final(ctx).code_lenses@.remove(meta.buffile@) == old(ctx).code_lenses@.remove(
                meta.buffile@,
            )
            &&& r is Some
            &&& r->0.buffile@ == meta.buffile@
            &&& r->0.version == version
            &&& r->0.command@ == display_command(meta.buffile@, version, line_flags@)
        },
{
    let lenses: Vec<CodeLens> = match result {
        Some(v) => v,
        None => Vec::new(),
    };
    let sorted = sort_lenses(lenses);
    let version: u64 = match ctx.documents.get(meta.buffile.as_str()) {
        Some(document) => document.version,
        None => {
            return None;
        },
    };
    ctx.code_lenses.insert(meta.buffile.clone(), sorted);
    proof {
        assert(final(ctx).code_lenses@.remove(meta.buffile@) =~= old(ctx).code_lenses@.remove(
            meta.buffile@,
        ));
    }
    let command = build_display_command(meta.buffile.as_str(), version, line_flags);
    Some(VersionedCommand { buffile: meta.buffile.clone(), version: version, command: command })
}

/// Resolves a user selection against the stored lenses: silently does
/// nothing when the document is unknown or no lenses were ever fetched,
/// and otherwise emits the instruction for the matching lenses.  The
/// selection arrives already parsed from its native description and
/// converted to protocol coordinates; both steps belong to outside
/// collaborators.
pub fn apply_code_lens(meta: &EditorMeta, selection: Range, ctx: &Context) -> (r: Option<String>)
    ensures
        !ctx.documents@.contains_key(meta.buffile@) ==> r is None,
        ctx.documents@.contains_key(meta.buffile@) && !ctx.code_lenses@.contains_key(meta.buffile@)
            ==> r is None,
        ctx.documents@.contains_key(meta.buffile@) && ctx.code_lenses@.contains_key(meta.buffile@)
            ==> r is Some && r->0@ == selection_command(
            matching_spec(ctx.code_lenses@[meta.buffile@]@, selection),
        ),
{
    if ctx.documents.get(meta.buffile.as_str()).is_none() {
        return None;
    }
    let lenses: &Vec<CodeLens> = match ctx.code_lenses.get(meta.buffile.as_str()) {
        Some(lenses) => lenses,
        None => {
            return None;
        },
    };
    let matched = matching_lenses(lenses, selection);
    Some(build_selection_command(&matched))
}

} // verus!
