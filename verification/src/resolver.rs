//! Compiling a declared keymap into a lookup table and resolving live
//! key-press events against it.
//!
//! [`compile`] walks the declared binds in order, parses each
//! combination string, and builds a map from canonical combination to
//! `(command, inhibit)`. Malformed binds are skipped, never fatal: each
//! yields one [`Diagnostic`] record, and compilation always returns a
//! map. [`CompiledKeymap::lookup`] masks a live event's modifier state
//! down to the recognized bits and probes the map.

use std::collections::HashMap;
use vstd::prelude::*;

use crate::combination::{
    combo_id, mods_of, parse, parse_failure_of, parse_ok, Combination, ParseError, ParseFailure,
    MOD_MASK,
};

verus! {

broadcast use vstd::std_specs::hash::group_hash_axioms;

/// A source location of a combination string, kept only so diagnostics
/// can point back at the offending text.
#[derive(Debug, Clone, Copy, PartialEq, Eq, Structural)]
pub struct Span {
    pub start: usize,
    pub end: usize,
    pub file_id: usize,
}

/// One declared binding: an optional inhibit override, the raw
/// combination string with its source span, and the command to run
/// when the combination matches. The command is opaque here.
#[derive(Debug, Clone)]
pub struct Bind {
    pub inhibit: Option<bool>,
    pub combination: String,
    pub combination_span: Span,
    pub cmd: String,
}

/// A declared keymap: bindings in declaration order, plus an optional
/// keymap-level default inhibit flag for binds that set none.
#[derive(Debug, Clone)]
pub struct WindowKeymap {
    pub binds: Vec<Bind>,
    pub inhibit: Option<bool>,
}

/// The inhibit flag a bind takes effect with: its own flag if set,
/// else the keymap-level default, else false.
pub open spec fn effective_inhibit(b: Bind, dflt: Option<bool>) -> bool {
    match b.inhibit {
        Some(v) => v,
        None => match dflt {
            Some(v) => v,
            None => false,
        },
    }
}

/// A bind's own flag overrides the keymap default; an unset flag
/// inherits the default; unset at both levels means false.
pub proof fn lemma_inhibit_inheritance(b: Bind, dflt: bool)
    ensures
        b.inhibit is None ==> effective_inhibit(b, Some(dflt)) == dflt,
        b.inhibit is None ==> effective_inhibit(b, None) == false,
        forall|d: Option<bool>|
            b.inhibit is Some ==> #[trigger] effective_inhibit(b, d) == b.inhibit.unwrap(),
{
}

/// One non-fatal compilation diagnostic: where the offending
/// combination text stands and why it failed to parse.
#[derive(Debug, Clone)]
pub struct Diagnostic {
    pub span: Span,
    pub error: ParseError,
}

impl View for Diagnostic {
    type V = (Span, ParseFailure);

    open spec fn view(&self) -> (Span, ParseFailure) {
        (self.span, self.error@)
    }
}

/// The map key a successfully parsed bind compiles to.
pub open spec fn parsed_id(b: Bind, kv: Option<u32>) -> u64 {
    combo_id(mods_of(b.combination@), kv.unwrap())
}

/// The entries the compiler builds from `binds`, given per-bind key
/// resolutions `keyvals` and the keymap-level default inhibit flag:
/// binds whose combination parses are inserted in declaration order,
/// so a later bind overwrites an earlier one with the same
/// combination; binds that fail to parse are skipped.
pub open spec fn compiled_entries(
    binds: Seq<Bind>,
    keyvals: Seq<Option<u32>>,
    dflt: Option<bool>,
) -> Map<u64, (Seq<char>, bool)>
    decreases binds.len(),
{
    if binds.len() == 0 {
        Map::empty()
    } else {
        let prev = compiled_entries(binds.drop_last(), keyvals.drop_last(), dflt);
        let b = binds.last();
        let kv = keyvals.last();
        if parse_ok(b.combination@, kv) {
            prev.insert(parsed_id(b, kv), (b.cmd@, effective_inhibit(b, dflt)))
        } else {
            prev
        }
    }
}

/// The diagnostics the compiler emits: one per bind whose combination
/// fails to parse, in declaration order.
pub open spec fn diag_seq(binds: Seq<Bind>, keyvals: Seq<Option<u32>>) -> Seq<(Span, ParseFailure)>
    decreases binds.len(),
{
    if binds.len() == 0 {
        Seq::empty()
    } else {
        let prev = diag_seq(binds.drop_last(), keyvals.drop_last());
        let b = binds.last();
        let kv = keyvals.last();
        if parse_ok(b.combination@, kv) {
            prev
        } else {
            prev.push((b.combination_span, parse_failure_of(b.combination@, kv)))
        }
    }
}

/// The view of a compiled map's raw entries.
spec fn entry_views(m: Map<u64, (String, bool)>) -> Map<u64, (Seq<char>, bool)> {
    Map::new(|id: u64| m.contains_key(id), |id: u64| (m[id].0@, m[id].1))
}

/// A compiled keymap: a write-once mapping from canonical combination
/// to `(command, inhibit)`, probed on every key press.
pub struct CompiledKeymap {
    map: HashMap<u64, (String, bool)>,
}

impl View for CompiledKeymap {
    type V = Map<u64, (Seq<char>, bool)>;

    closed spec fn view(&self) -> Map<u64, (Seq<char>, bool)> {
        entry_views(self.map@)
    }
}

impl CompiledKeymap {
    /// The number of combinations bound.
    pub fn len(&self) -> (r: usize)
        ensures
            r as nat == self@.len(),
    {
        proof {
            assert(self@.dom() =~= self.map@.dom());
        }
        self.map.len()
    }

    /// Resolve a live key-press event. The raw modifier state is
    /// masked down to the recognized modifier bits first, so indicator
    /// bits the toolkit reports beyond those cannot spoil a match; the
    /// key arrives as its identity in the host's key-symbol space, the
    /// same space configured key names resolve into. Returns the bound
    /// command and inhibit flag, or `None` when nothing is bound to
    /// the combination, in which case the caller lets the event
    /// propagate.
    pub fn lookup(&self, event_mods: u32, event_key: u32) -> (r: Option<(String, bool)>)
        ensures
            ({
                let id = combo_id(event_mods & MOD_MASK, event_key);
                match r {
                    Some(p) => self@.contains_key(id) && p.0@ == self@[id].0 && p.1
                        == self@[id].1,
                    None => !self@.contains_key(id),
                }
            }),
    {
        let masked = event_mods & MOD_MASK;
        proof {
            assert(((masked as u64) << 32) <= 0xffffffff00000000u64) by (bit_vector);
        }
        let id = ((masked as u64) << 32) + (event_key as u64);
        match self.map.get(&id) {
            Some(entry) => Some((entry.0.clone(), entry.1)),
            None => None,
        }
    }
}

/// Last declared wins: a bind whose combination parses, and after
/// which no later bind parses to the same combination, is the one the
/// compiled map holds for that combination — with its command and its
/// effective inhibit flag.
pub proof fn lemma_last_wins(
    binds: Seq<Bind>,
    keyvals: Seq<Option<u32>>,
    dflt: Option<bool>,
    i: int,
)
    requires
        keyvals.len() == binds.len(),
        0 <= i < binds.len(),
        parse_ok(binds[i].combination@, keyvals[i]),
        forall|j: int| #![trigger binds[j]]
            i < j < binds.len() && parse_ok(binds[j].combination@, keyvals[j]) ==> parsed_id(
                binds[j],
                keyvals[j],
            ) != parsed_id(binds[i], keyvals[i]),
    ensures
        compiled_entries(binds, keyvals, dflt).contains_key(parsed_id(binds[i], keyvals[i])),
        compiled_entries(binds, keyvals, dflt)[parsed_id(binds[i], keyvals[i])] == (
            binds[i].cmd@,
            effective_inhibit(binds[i], dflt),
        ),
    decreases binds.len(),
{
    let id = parsed_id(binds[i], keyvals[i]);
    if i == binds.len() - 1 {
    } else {
        assert(binds.drop_last()[i] == binds[i]);
        assert(forall|j: int| #![trigger binds.drop_last()[j]]
            0 <= j < binds.len() - 1 ==> binds.drop_last()[j] == binds[j]);
        assert(forall|j: int| #![trigger keyvals.drop_last()[j]]
            0 <= j < keyvals.len() - 1 ==> keyvals.drop_last()[j] == keyvals[j]);
        lemma_last_wins(binds.drop_last(), keyvals.drop_last(), dflt, i);
        if parse_ok(binds.last().combination@, keyvals.last()) {
            assert(binds[binds.len() - 1] == binds.last());
            assert(parsed_id(binds.last(), keyvals.last()) != id);
        }
    }
}

/// The number of binds whose combination fails to parse.
pub open spec fn fail_count(binds: Seq<Bind>, keyvals: Seq<Option<u32>>) -> int
    decreases binds.len(),
{
    if binds.len() == 0 {
        0
    } else {
        fail_count(binds.drop_last(), keyvals.drop_last()) + if parse_ok(
            binds.last().combination@,
            keyvals.last(),
        ) {
            0int
        } else {
            1int
        }
    }
}

/// Compiler resilience: compilation emits exactly one diagnostic per
/// bind whose combination does not parse, and no others.
pub proof fn lemma_one_diagnostic_per_failure(binds: Seq<Bind>, keyvals: Seq<Option<u32>>)
    ensures
        diag_seq(binds, keyvals).len() == fail_count(binds, keyvals),
    decreases binds.len(),
{
    if binds.len() > 0 {
        lemma_one_diagnostic_per_failure(binds.drop_last(), keyvals.drop_last());
    }
}

/// Whether some bind parses to the combination identifier `id`.
pub open spec fn some_bind_compiles_to(
    binds: Seq<Bind>,
    keyvals: Seq<Option<u32>>,
    id: u64,
) -> bool {
    exists|j: int| #![trigger binds[j]]
        0 <= j < binds.len() && parse_ok(binds[j].combination@, keyvals[j]) && parsed_id(
            binds[j],
            keyvals[j],
        ) == id
}

/// The compiled map holds exactly the combinations of the binds that
/// parse: nothing is lost but failing binds, and nothing is invented.
pub proof fn lemma_compiled_domain(
    binds: Seq<Bind>,
    keyvals: Seq<Option<u32>>,
    dflt: Option<bool>,
    id: u64,
)
    requires
        keyvals.len() == binds.len(),
    ensures
        compiled_entries(binds, keyvals, dflt).contains_key(id) <==> some_bind_compiles_to(
            binds,
            keyvals,
            id,
        ),
    decreases binds.len(),
{
    if binds.len() == 0 {
    } else {
        let n = binds.len();
        let bl = binds.drop_last();
        let kl = keyvals.drop_last();
        lemma_compiled_domain(bl, kl, dflt, id);
        assert(forall|j: int| #![trigger bl[j]] 0 <= j < n - 1 ==> bl[j] == binds[j]);
        assert(forall|j: int| #![trigger kl[j]] 0 <= j < n - 1 ==> kl[j] == keyvals[j]);
        let b = binds.last();
        let kv = keyvals.last();
        let m = compiled_entries(binds, keyvals, dflt);
        let prev = compiled_entries(bl, kl, dflt);
        if parse_ok(b.combination@, kv) && parsed_id(b, kv) == id {
            assert(m.contains_key(id));
            assert(binds[n - 1] == b);
            assert(some_bind_compiles_to(binds, keyvals, id));
        } else {
            assert(m.contains_key(id) == prev.contains_key(id));
            if some_bind_compiles_to(bl, kl, id) {
                let j = choose|j: int| #![trigger bl[j]]
                    0 <= j < bl.len() && parse_ok(bl[j].combination@, kl[j]) && parsed_id(
                        bl[j],
                        kl[j],
                    ) == id;
                assert(binds[j] == bl[j]);
                assert(some_bind_compiles_to(binds, keyvals, id));
            }
            if some_bind_compiles_to(binds, keyvals, id) {
                let j = choose|j: int| #![trigger binds[j]]
                    0 <= j < n && parse_ok(binds[j].combination@, keyvals[j]) && parsed_id(
                        binds[j],
                        keyvals[j],
                    ) == id;
                assert(j != n - 1);
                assert(bl[j] == binds[j]);
                assert(some_bind_compiles_to(bl, kl, id));
            }
        }
    }
}

/// When no two well-formed binds collide on the same combination, the
/// compiled map holds exactly one entry per bind that parses: with
/// one malformed bind among the rest all distinct, that is all but
/// one.
pub proof fn lemma_entry_count(binds: Seq<Bind>, keyvals: Seq<Option<u32>>, dflt: Option<bool>)
    requires
        keyvals.len() == binds.len(),
        forall|j: int, k: int| #![trigger binds[j], binds[k]]
            0 <= j < k < binds.len() && parse_ok(binds[j].combination@, keyvals[j]) && parse_ok(
                binds[k].combination@,
                keyvals[k],
            ) ==> parsed_id(binds[j], keyvals[j]) != parsed_id(binds[k], keyvals[k]),
    ensures
        compiled_entries(binds, keyvals, dflt).dom().finite(),
        compiled_entries(binds, keyvals, dflt).len() == binds.len() - fail_count(binds, keyvals),
    decreases binds.len(),
{
    if binds.len() == 0 {
        assert(compiled_entries(binds, keyvals, dflt).dom() =~= Set::<u64>::empty());
    } else {
        let n = binds.len();
        let bl = binds.drop_last();
        let kl = keyvals.drop_last();
        assert(forall|j: int| #![trigger bl[j]] 0 <= j < n - 1 ==> bl[j] == binds[j]);
        assert(forall|j: int| #![trigger kl[j]] 0 <= j < n - 1 ==> kl[j] == keyvals[j]);
        lemma_entry_count(bl, kl, dflt);
        let b = binds.last();
        let kv = keyvals.last();
        let prev = compiled_entries(bl, kl, dflt);
        if parse_ok(b.combination@, kv) {
            let id = parsed_id(b, kv);
            assert(!prev.contains_key(id)) by {
                lemma_compiled_domain(bl, kl, dflt, id);
                if some_bind_compiles_to(bl, kl, id) {
                    let j = choose|j: int| #![trigger bl[j]]
                        0 <= j < bl.len() && parse_ok(bl[j].combination@, kl[j]) && parsed_id(
                            bl[j],
                            kl[j],
                        ) == id;
                    assert(binds[j] == bl[j] && binds[n - 1] == b);
                }
            }
            assert(compiled_entries(binds, keyvals, dflt).dom() =~= prev.dom().insert(id));
        }
    }
}

/// Lookup masking: modifier bits outside the recognized set make no
/// difference to the identifier an event is resolved under, so an
/// event carrying an extraneous indicator bit still matches.
pub proof fn lemma_extra_bits_ignored(mods: u32, extra: u32, key: u32)
    requires
        extra & MOD_MASK == 0,
    ensures
        combo_id((mods | extra) & MOD_MASK, key) == combo_id(mods & MOD_MASK, key),
{
    assert((mods | extra) & MOD_MASK == mods & MOD_MASK) by (bit_vector)
        requires
            extra & MOD_MASK == 0u32,
    ;
}

/// Compile a declared keymap. Every bind's combination is parsed;
/// `keyvals[i]` is the host key-naming table's resolution of bind
/// `i`'s key segment (see [`crate::combination::key_name`]). Binds
/// that parse are inserted in declaration order, later ones
/// overwriting earlier ones with the same combination; binds that do
/// not parse are skipped, each contributing exactly one diagnostic.
/// Compilation itself never fails.
pub fn compile(keymap: &WindowKeymap, keyvals: &Vec<Option<u32>>) -> (r: (
    CompiledKeymap,
    Vec<Diagnostic>,
))
    requires
        keyvals@.len() == keymap.binds@.len(),
    ensures
        r.0@ == compiled_entries(keymap.binds@, keyvals@, keymap.inhibit),
        r.1@.map_values(|d: Diagnostic| d@) == diag_seq(keymap.binds@, keyvals@),
{
    let n = keymap.binds.len();
    let mut map: HashMap<u64, (String, bool)> = HashMap::with_capacity(n);
    let mut diags: Vec<Diagnostic> = Vec::new();
    proof {
        assert(entry_views(map@) =~= compiled_entries(
            keymap.binds@.take(0),
            keyvals@.take(0),
            keymap.inhibit,
        ));
        assert(diags@.map_values(|d: Diagnostic| d@) =~= diag_seq(
            keymap.binds@.take(0),
            keyvals@.take(0),
        ));
    }
    let mut i: usize = 0;
    while i < n
        invariant
            0 <= i <= n,
            n == keymap.binds@.len(),
            keyvals@.len() == n,
            entry_views(map@) == compiled_entries(
                keymap.binds@.take(i as int),
                keyvals@.take(i as int),
                keymap.inhibit,
            ),
            diags@.map_values(|d: Diagnostic| d@) == diag_seq(
                keymap.binds@.take(i as int),
                keyvals@.take(i as int),
            ),
        decreases n - i,
    {
        let bind = &keymap.binds[i];
        let kv = keyvals[i];
        let inhibit = match bind.inhibit {
            Some(v) => v,
            None => match keymap.inhibit {
                Some(v) => v,
                None => false,
            },
        };
        proof {
            assert(keymap.binds@.take(i as int + 1).drop_last() =~= keymap.binds@.take(i as int));
            assert(keyvals@.take(i as int + 1).drop_last() =~= keyvals@.take(i as int));
            assert(keymap.binds@.take(i as int + 1).last() == keymap.binds@[i as int]);
            assert(keyvals@.take(i as int + 1).last() == keyvals@[i as int]);
        }
        match parse(bind.combination.as_str(), kv) {
            Ok(c) => {
                let id = c.id();
                let entry = (bind.cmd.clone(), inhibit);
                proof {
                    assert(entry_views(map@.insert(id, entry)) =~= entry_views(map@).insert(
                        id,
                        (bind.cmd@, effective_inhibit(keymap.binds@[i as int], keymap.inhibit)),
                    ));
                }
                map.insert(id, entry);
            },
            Err(e) => {
                let d = Diagnostic { span: bind.combination_span, error: e };
                proof {
                    assert(diags@.push(d).map_values(|dd: Diagnostic| dd@) =~= diags@.map_values(
                        |dd: Diagnostic| dd@,
                    ).push(d@));
                }
                diags.push(d);
            },
        }
        i = i + 1;
    }
    proof {
        assert(keymap.binds@.take(n as int) =~= keymap.binds@);
        assert(keyvals@.take(n as int) =~= keyvals@);
    }
    (CompiledKeymap { map }, diags)
}

} // verus!
