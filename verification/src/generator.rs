use vstd::prelude::*;
use crate::terms::{
    iri_ok, named_node_accepts, resolve_predicate_iri, resolved_iri, str_eq,
    IdentModel, Identifier, KeywordTable, Triple, TripleModel,
};
use crate::tree::{preorder, Cursor, Entry, EntryModel, Node};
use crate::walker::TreeCursorWalker;

verus! {

/// The semantic mode active at a level of the tree. The grammar at hand has
/// a single mode; the stack machinery below restores it like the subject.
#[derive(Clone, Copy)]
pub enum PddlState {
    Default,
}

/// Mathematical state of the context-stack triple generator.
pub struct StateModel {
    pub current: IdentModel,
    pub current_stack: Seq<Option<IdentModel>>,
    pub state: PddlState,
    pub state_stack: Seq<Option<PddlState>>,
    pub depth: nat,
    pub next_blank: u64,
}

impl StateModel {
    /// Each stack holds one frame per level between the root and the
    /// tracked depth.
    pub open spec fn wf(self) -> bool {
        self.current_stack.len() == self.depth && self.state_stack.len() == self.depth
    }
}

/// The first recorded value from the shallow end of a popped segment, if any.
pub open spec fn restored_opt<T>(seg: Seq<Option<T>>) -> Option<T>
    decreases seg.len(),
{
    if seg.len() == 0 {
        Option::None
    } else if seg[0] is Some {
        seg[0]
    } else {
        restored_opt(seg.subrange(1, seg.len() as int))
    }
}

/// What an ascent across `seg` restores: the shallowest recorded frame wins;
/// if no popped frame recorded anything, the running value stays.
pub open spec fn restored<T>(seg: Seq<Option<T>>, cur: T) -> T {
    match restored_opt(seg) {
        Option::Some(v) => v,
        Option::None => cur,
    }
}

/// Depth reconciliation: descending pushes one placeholder frame per new
/// level; ascending pops one frame per level left, restoring the context
/// recorded shallowest among them; the tracked depth becomes the observed
/// depth.
pub open spec fn reconcile(s: StateModel, depth: nat) -> StateModel {
    if depth >= s.depth {
        StateModel {
            current: s.current,
            current_stack: s.current_stack + Seq::new(
                (depth - s.depth) as nat,
                |i: int| Option::None,
            ),
            state: s.state,
            state_stack: s.state_stack + Seq::new(
                (depth - s.depth) as nat,
                |i: int| Option::None,
            ),
            depth,
            next_blank: s.next_blank,
        }
    } else {
        StateModel {
            current: restored(s.current_stack.subrange(depth as int, s.depth as int), s.current),
            current_stack: s.current_stack.subrange(0, depth as int),
            state: restored(s.state_stack.subrange(depth as int, s.depth as int), s.state),
            state_stack: s.state_stack.subrange(0, depth as int),
            depth,
            next_blank: s.next_blank,
        }
    }
}

/// Reconciliation keeps the stacks one frame per level, and pure descent
/// touches neither the current subject nor the mode.
pub proof fn lemma_reconcile_wf(s: StateModel, depth: nat)
    requires
        s.wf(),
    ensures
        reconcile(s, depth).wf(),
        reconcile(s, depth).depth == depth,
        reconcile(s, depth).next_blank == s.next_blank,
        depth >= s.depth ==> reconcile(s, depth).current == s.current && reconcile(s, depth).state
            == s.state,
{
}

/// Emitting for one qualifying token: resolve the predicate, and if the
/// store's parser accepts it and a fresh handle is available, mint the
/// object, record the present subject in this level's placeholder frame if
/// it is still empty, and make the fresh object the subject below.
pub open spec fn spec_get_triple(
    s: StateModel,
    text: Seq<char>,
    table: Seq<(Seq<char>, Seq<char>)>,
    ont_ns: Seq<char>,
    file_ns: Seq<char>,
) -> (StateModel, Option<TripleModel>) {
    let iri = resolved_iri(table, text, ont_ns, file_ns);
    if !iri_ok(iri) || s.next_blank == u64::MAX {
        (s, Option::None)
    } else {
        let obj = IdentModel::Blank(s.next_blank);
        let t = TripleModel { subject: s.current, predicate: iri, object: obj };
        let recorded = if s.depth > 0 && s.current_stack[s.depth as int - 1] is None {
            s.current_stack.update(s.depth as int - 1, Option::Some(s.current))
        } else {
            s.current_stack
        };
        (
            StateModel {
                current: obj,
                current_stack: recorded,
                state: s.state,
                state_stack: s.state_stack,
                depth: s.depth,
                next_blank: (s.next_blank + 1) as u64,
            },
            Option::Some(t),
        )
    }
}

/// Whether a visit may produce a triple: the traversal root never does, nor
/// does a non-named node or one of the designated non-semantic kind.
pub open spec fn qualifies(e: EntryModel, comment_kind: Seq<char>) -> bool {
    e.depth > 0 && e.is_named && e.kind != comment_kind
}

/// One full step of the generator on one visit: reconcile the stacks to the
/// visit's depth, filter, then emit for a qualifying token.
pub open spec fn spec_process(
    s: StateModel,
    e: EntryModel,
    table: Seq<(Seq<char>, Seq<char>)>,
    ont_ns: Seq<char>,
    file_ns: Seq<char>,
    comment_kind: Seq<char>,
) -> (StateModel, Option<TripleModel>) {
    let s1 = reconcile(s, e.depth);
    if !qualifies(e, comment_kind) {
        (s1, Option::None)
    } else {
        spec_get_triple(s1, e.text, table, ont_ns, file_ns)
    }
}

/// The generator folded over a whole visit sequence: the final state and the
/// triples emitted, in visit order.
pub open spec fn run(
    s: StateModel,
    es: Seq<EntryModel>,
    table: Seq<(Seq<char>, Seq<char>)>,
    ont_ns: Seq<char>,
    file_ns: Seq<char>,
    comment_kind: Seq<char>,
) -> (StateModel, Seq<TripleModel>)
    decreases es.len(),
{
    if es.len() == 0 {
        (s, Seq::empty())
    } else {
        let first = spec_process(s, es[0], table, ont_ns, file_ns, comment_kind);
        let rest = run(
            first.0,
            es.subrange(1, es.len() as int),
            table,
            ont_ns,
            file_ns,
            comment_kind,
        );
        (
            rest.0,
            (match first.1 {
                Option::Some(t) => seq![t],
                Option::None => Seq::empty(),
            }) + rest.1,
        )
    }
}

/// Unfolding one step of `run`: the first visit is processed, the rest of
/// the fold starts from the state it leaves.
pub proof fn lemma_run_step(
    s: StateModel,
    es: Seq<EntryModel>,
    table: Seq<(Seq<char>, Seq<char>)>,
    ont_ns: Seq<char>,
    file_ns: Seq<char>,
    comment_kind: Seq<char>,
)
    requires
        es.len() > 0,
    ensures
        ({
            let first = spec_process(s, es[0], table, ont_ns, file_ns, comment_kind);
            let rest = run(first.0, es.drop_first(), table, ont_ns, file_ns, comment_kind);
            run(s, es, table, ont_ns, file_ns, comment_kind).0 == rest.0 && run(
                s,
                es,
                table,
                ont_ns,
                file_ns,
                comment_kind,
            ).1 == (match first.1 {
                Option::Some(t) => seq![t],
                Option::None => Seq::<TripleModel>::empty(),
            }) + rest.1
        }),
{
    assert(es.subrange(1, es.len() as int) =~= es.drop_first());
}

/// The traversal root, non-named nodes and nodes of the designated
/// non-semantic kind never produce a triple, and touch nothing but the
/// depth bookkeeping.
pub proof fn lemma_filter(
    s: StateModel,
    e: EntryModel,
    table: Seq<(Seq<char>, Seq<char>)>,
    ont_ns: Seq<char>,
    file_ns: Seq<char>,
    comment_kind: Seq<char>,
)
    requires
        !qualifies(e, comment_kind),
    ensures
        spec_process(s, e, table, ont_ns, file_ns, comment_kind).1 is None,
        spec_process(s, e, table, ont_ns, file_ns, comment_kind).0 == reconcile(s, e.depth),
{
}

/// Context monotonicity under pure descent: across consecutive visits whose
/// depths step down exactly one level at a time and which yield no triple,
/// the current subject and mode never change, and nothing is emitted: the
/// descent pushed placeholder frames only.
pub proof fn lemma_pure_descent(
    s: StateModel,
    es: Seq<EntryModel>,
    table: Seq<(Seq<char>, Seq<char>)>,
    ont_ns: Seq<char>,
    file_ns: Seq<char>,
    comment_kind: Seq<char>,
)
    requires
        s.wf(),
        forall|i: int| 0 <= i < es.len() ==> (#[trigger] es[i]).depth == s.depth + 1 + i,
        forall|i: int| 0 <= i < es.len() ==> !qualifies(#[trigger] es[i], comment_kind),
    ensures
        run(s, es, table, ont_ns, file_ns, comment_kind).0.current == s.current,
        run(s, es, table, ont_ns, file_ns, comment_kind).0.state == s.state,
        run(s, es, table, ont_ns, file_ns, comment_kind).1 == Seq::<TripleModel>::empty(),
    decreases es.len(),
{
    if es.len() > 0 {
        let s1 = reconcile(s, es[0].depth);
        lemma_reconcile_wf(s, es[0].depth);
        let tail = es.drop_first();
        assert forall|i: int| 0 <= i < tail.len() implies (#[trigger] tail[i]).depth == s1.depth + 1
            + i by {
            assert(tail[i] == es[i + 1]);
        }
        assert forall|i: int| 0 <= i < tail.len() implies !qualifies(
            #[trigger] tail[i],
            comment_kind,
        ) by {
            assert(tail[i] == es[i + 1]);
        }
        lemma_pure_descent(s1, tail, table, ont_ns, file_ns, comment_kind);
        lemma_run_step(s, es, table, ont_ns, file_ns, comment_kind);
        assert(run(s, es, table, ont_ns, file_ns, comment_kind).1 =~= Seq::<TripleModel>::empty());
    }
}

/// Context restoration on ascent: a node at depth one emits a triple and so
/// assigns its fresh object as the subject context; two deeper visits
/// follow, at depths two and three, each free to emit or not. Coming back
/// to depth one restores exactly the subject assigned at depth one, never
/// anything the deeper visits assigned.
pub proof fn lemma_context_restored_on_ascent(
    s0: StateModel,
    ea: EntryModel,
    eb: EntryModel,
    ec: EntryModel,
    table: Seq<(Seq<char>, Seq<char>)>,
    ont_ns: Seq<char>,
    file_ns: Seq<char>,
    comment_kind: Seq<char>,
)
    requires
        s0.wf(),
        s0.depth == 0,
        ea.depth == 1,
        eb.depth == 2,
        ec.depth == 3,
        qualifies(ea, comment_kind),
        iri_ok(resolved_iri(table, ea.text, ont_ns, file_ns)),
        s0.next_blank < u64::MAX,
    ensures
        ({
            let s3 = run(s0, seq![ea, eb, ec], table, ont_ns, file_ns, comment_kind).0;
            reconcile(s3, 1).current == IdentModel::Blank(s0.next_blank)
        }),
{
    let assigned = IdentModel::Blank(s0.next_blank);
    let es = seq![ea, eb, ec];
    lemma_run_step(s0, es, table, ont_ns, file_ns, comment_kind);
    assert(es.drop_first() =~= seq![eb, ec]);
    lemma_run_step(
        spec_process(s0, ea, table, ont_ns, file_ns, comment_kind).0,
        seq![eb, ec],
        table,
        ont_ns,
        file_ns,
        comment_kind,
    );
    assert(seq![eb, ec].drop_first() =~= seq![ec]);
    let sa = spec_process(s0, ea, table, ont_ns, file_ns, comment_kind).0;
    let sb = spec_process(sa, eb, table, ont_ns, file_ns, comment_kind).0;
    lemma_run_step(sb, seq![ec], table, ont_ns, file_ns, comment_kind);
    assert(seq![ec].drop_first() =~= Seq::<EntryModel>::empty());
    let sc = spec_process(sb, ec, table, ont_ns, file_ns, comment_kind).0;
    assert(run(s0, es, table, ont_ns, file_ns, comment_kind).0 == sc);

    // the visit of `ea`: one placeholder pushed, then recorded and replaced
    let ra = reconcile(s0, 1);
    assert(ra.current_stack =~= seq![Option::<IdentModel>::None]);
    assert(sa.current == assigned);
    assert(sa.current_stack =~= seq![Option::Some(s0.current)]);
    assert(sa.depth == 1);

    // the visit of `eb`: whether or not it emits, the frame for its level
    // either records `assigned` or stays empty while `assigned` runs on
    let rb = reconcile(sa, 2);
    assert(rb.current_stack =~= seq![Option::Some(s0.current), Option::<IdentModel>::None]);
    assert(rb.current == assigned);
    assert(sb.depth == 2);
    assert(sb.current_stack.len() == 2);
    assert(sb.current_stack[0] == Option::Some(s0.current));
    assert(sb.current_stack[1] == Option::Some(assigned) || (sb.current_stack[1] is None
        && sb.current == assigned));

    // the visit of `ec`: one more placeholder, same alternative one level down
    let rc = reconcile(sb, 3);
    assert(rc.current_stack =~= sb.current_stack + seq![Option::<IdentModel>::None]);
    assert(rc.current == sb.current);
    assert(sc.depth == 3);
    assert(sc.current_stack.len() == 3);
    assert(sc.current_stack[0] == Option::Some(s0.current));
    assert(sc.current_stack[1] == sb.current_stack[1]);
    assert(sc.current_stack[2] == Option::Some(sb.current) || (sc.current_stack[2] is None
        && sc.current == sb.current));

    // ascending back to depth one pops the two deeper frames; the
    // shallowest recorded one wins
    let seg = sc.current_stack.subrange(1, 3);
    assert(seg.len() == 2);
    assert(seg[0] == sc.current_stack[1]);
    assert(seg[1] == sc.current_stack[2]);
    assert(seg.subrange(1, 2) =~= seq![seg[1]]);
    if seg[0] is Some {
        assert(restored_opt(seg) == seg[0]);
        assert(reconcile(sc, 1).current == assigned);
    } else {
        assert(sb.current == assigned);
        assert(restored_opt(seg) == restored_opt(seq![seg[1]]));
        assert(seq![seg[1]].subrange(1, 1) =~= Seq::<Option<IdentModel>>::empty());
        if seg[1] is Some {
            assert(restored_opt(seg) == seg[1]);
            assert(reconcile(sc, 1).current == assigned);
        } else {
            assert(restored_opt(seq![seg[1]]) == restored_opt(seq![seg[1]].subrange(1, 1)));
            assert(restored_opt(Seq::<Option<IdentModel>>::empty()) is None);
            assert(restored_opt(seg) is None);
            assert(sc.current == assigned);
            assert(reconcile(sc, 1).current == assigned);
        }
    }
}

/// Every emitted object is a blank handle minted from the running counter:
/// the counter never steps back, each object's handle lies between the
/// counter's start and end, later triples carry strictly larger handles,
/// and so no two triples of one run share an object.
pub proof fn lemma_blank_objects_unique(
    s: StateModel,
    es: Seq<EntryModel>,
    table: Seq<(Seq<char>, Seq<char>)>,
    ont_ns: Seq<char>,
    file_ns: Seq<char>,
    comment_kind: Seq<char>,
)
    ensures
        ({
            let r = run(s, es, table, ont_ns, file_ns, comment_kind);
            &&& s.next_blank <= r.0.next_blank
            &&& forall|i: int|
                0 <= i < r.1.len() ==> (#[trigger] r.1[i]).object is Blank && s.next_blank
                    <= r.1[i].object->Blank_0 < r.0.next_blank
            &&& forall|i: int, j: int|
                0 <= i < j < r.1.len() ==> (#[trigger] r.1[i]).object->Blank_0 < (#[trigger] r.1[j]).object->Blank_0
        }),
    decreases es.len(),
{
    let r = run(s, es, table, ont_ns, file_ns, comment_kind);
    if es.len() > 0 {
        lemma_run_step(s, es, table, ont_ns, file_ns, comment_kind);
        let first = spec_process(s, es[0], table, ont_ns, file_ns, comment_kind);
        let rest = run(first.0, es.drop_first(), table, ont_ns, file_ns, comment_kind);
        lemma_blank_objects_unique(first.0, es.drop_first(), table, ont_ns, file_ns, comment_kind);
        match first.1 {
            Option::Some(t) => {
                assert(t.object == IdentModel::Blank(s.next_blank));
                assert(first.0.next_blank == s.next_blank + 1);
                assert(r.1 == seq![t] + rest.1);
                assert(r.1[0] == t);
                assert forall|i: int| 0 < i < r.1.len() implies (#[trigger] r.1[i]) == rest.1[i
                    - 1] by {}
            },
            Option::None => {
                assert(first.0.next_blank == s.next_blank);
                assert(r.1 =~= rest.1);
            },
        }
    }
}

/// The view of an optional emitted triple.
pub open spec fn opt_triple_model(r: Option<Triple>) -> Option<TripleModel> {
    match r {
        Option::Some(t) => Option::Some(t@),
        Option::None => Option::None,
    }
}

/// The view of one stack frame.
pub open spec fn frame_model(o: Option<Identifier>) -> Option<IdentModel> {
    match o {
        Option::Some(i) => Option::Some(i@),
        Option::None => Option::None,
    }
}

/// Context-stack triple generator.
///
/// Consumes the walker's depth-annotated visit stream and keeps, per level,
/// an optional snapshot of the subject and mode to restore on ascent. Its
/// behaviour is exactly the fold `run` of `spec_process` over the stream.
pub struct PddlStateWalker {
    current: Identifier,
    current_stack: Vec<Option<Identifier>>,
    state: PddlState,
    state_stack: Vec<Option<PddlState>>,
    depth: usize,
    next_blank: u64,
}

impl View for PddlStateWalker {
    type V = StateModel;

    closed spec fn view(&self) -> StateModel {
        StateModel {
            current: self.current@,
            current_stack: self.current_stack@.map_values(|o: Option<Identifier>| frame_model(o)),
            state: self.state,
            state_stack: self.state_stack@,
            depth: self.depth as nat,
            next_blank: self.next_blank,
        }
    }
}

/// The state a fresh generator starts in.
pub open spec fn initial_state(current: IdentModel) -> StateModel {
    StateModel {
        current,
        current_stack: Seq::empty(),
        state: PddlState::Default,
        state_stack: Seq::empty(),
        depth: 0,
        next_blank: 0,
    }
}

impl PddlStateWalker {
    /// A fresh generator whose initial subject is `current`.
    pub fn new(current: Identifier) -> (r: PddlStateWalker)
        ensures
            r@ == initial_state(current@),
            r@.wf(),
    {
        let r = PddlStateWalker {
            current,
            current_stack: Vec::new(),
            state: PddlState::Default,
            state_stack: Vec::new(),
            depth: 0,
            next_blank: 0,
        };
        proof {
            assert(r@.current_stack =~= Seq::<Option<IdentModel>>::empty());
            assert(r@.state_stack =~= Seq::<Option<PddlState>>::empty());
        }
        r
    }

    /// Bring the stacks in line with a newly observed depth.
    pub fn new_depth(&mut self, depth: usize)
        requires
            old(self)@.wf(),
        ensures
            final(self)@ == reconcile(old(self)@, depth as nat),
            final(self)@.wf(),
    {
        let ghost s0 = self@;
        if self.depth < depth {
            let mut k = self.depth;
            while k < depth
                invariant
                    s0.wf(),
                    self@.depth == k,
                    s0.depth <= k <= depth,
                    self@.current == s0.current,
                    self@.state == s0.state,
                    self@.next_blank == s0.next_blank,
                    self@.current_stack == s0.current_stack + Seq::new(
                        (k - s0.depth) as nat,
                        |i: int| Option::<IdentModel>::None,
                    ),
                    self@.state_stack == s0.state_stack + Seq::new(
                        (k - s0.depth) as nat,
                        |i: int| Option::<PddlState>::None,
                    ),
                decreases depth - k,
            {
                let ghost cbefore = self@.current_stack;
                self.current_stack.push(None);
                self.state_stack.push(None);
                k = k + 1;
                self.depth = k;
                proof {
                    assert(self@.current_stack =~= cbefore.push(Option::None));
                    assert(self@.current_stack =~= s0.current_stack + Seq::new(
                        (k - s0.depth) as nat,
                        |i: int| Option::<IdentModel>::None,
                    ));
                    assert(self@.state_stack =~= s0.state_stack + Seq::new(
                        (k - s0.depth) as nat,
                        |i: int| Option::<PddlState>::None,
                    ));
                }
            }
        } else if depth < self.depth {
            let mut new_current: Option<Identifier> = None;
            let mut new_state: Option<PddlState> = None;
            let mut k = self.depth;
            proof {
                assert(s0.current_stack.subrange(k as int, s0.depth as int)
                    =~= Seq::<Option<IdentModel>>::empty());
                assert(s0.state_stack.subrange(k as int, s0.depth as int)
                    =~= Seq::<Option<PddlState>>::empty());
            }
            while k > depth
                invariant
                    s0.wf(),
                    self@.depth == k,
                    depth <= k <= s0.depth,
                    self@.current == s0.current,
                    self@.state == s0.state,
                    self@.next_blank == s0.next_blank,
                    self@.current_stack == s0.current_stack.subrange(0, k as int),
                    self@.state_stack == s0.state_stack.subrange(0, k as int),
                    frame_model(new_current) == restored_opt(
                        s0.current_stack.subrange(k as int, s0.depth as int),
                    ),
                    match new_state {
                        Option::Some(v) => restored_opt(
                            s0.state_stack.subrange(k as int, s0.depth as int),
                        ) == Option::Some(v),
                        Option::None => restored_opt(
                            s0.state_stack.subrange(k as int, s0.depth as int),
                        ) is None,
                    },
                decreases k,
            {
                let ghost vv = self.current_stack@;
                let ghost sv = self.state_stack@;
                let popped = self.current_stack.pop();
                let spopped = self.state_stack.pop();
                proof {
                    assert(vv.map_values(|o: Option<Identifier>| frame_model(o)).len() == k);
                    assert(vv.len() == k);
                    assert(sv.len() == k);
                    assert(popped == Option::Some(vv[k - 1]));
                    assert(spopped == Option::Some(sv[k - 1]));
                    assert(vv.map_values(|o: Option<Identifier>| frame_model(o))[k - 1]
                        == frame_model(vv[k - 1]));
                    assert(vv.map_values(|o: Option<Identifier>| frame_model(o))[k - 1]
                        == s0.current_stack.subrange(0, k as int)[k - 1]);
                    assert(frame_model(vv[k - 1]) == s0.current_stack[k - 1]);
                    assert(sv[k - 1] == s0.state_stack[k - 1]);
                }
                if let Some(frame) = popped {
                    if frame.is_some() {
                        new_current = frame;
                    }
                }
                if let Some(sframe) = spopped {
                    if sframe.is_some() {
                        new_state = sframe;
                    }
                }
                k = k - 1;
                self.depth = k;
                proof {
                    assert(self@.current_stack =~= s0.current_stack.subrange(0, k as int));
                    assert(self@.state_stack =~= s0.state_stack.subrange(0, k as int));
                    let seg = s0.current_stack.subrange(k as int, s0.depth as int);
                    assert(seg[0] == s0.current_stack[k as int]);
                    assert(seg.subrange(1, seg.len() as int) =~= s0.current_stack.subrange(
                        k + 1,
                        s0.depth as int,
                    ));
                    let sseg = s0.state_stack.subrange(k as int, s0.depth as int);
                    assert(sseg[0] == s0.state_stack[k as int]);
                    assert(sseg.subrange(1, sseg.len() as int) =~= s0.state_stack.subrange(
                        k + 1,
                        s0.depth as int,
                    ));
                }
            }
            if let Some(c) = new_current {
                self.current = c;
            }
            if let Some(st) = new_state {
                self.state = st;
            }
        }
        proof {
            if depth as nat >= s0.depth {
                assert(self@.current_stack =~= reconcile(s0, depth as nat).current_stack);
                assert(self@.state_stack =~= reconcile(s0, depth as nat).state_stack);
            }
        }
    }

    /// Resolve one qualifying token and emit its triple: subject is the
    /// current context, predicate the resolved IRI, object a fresh blank
    /// handle, which in turn becomes the context for deeper nodes. A token
    /// whose resolved IRI the store's parser refuses emits nothing and
    /// changes nothing.
    pub fn get_triple_from_node(
        &mut self,
        text: &str,
        key_word_map: &KeywordTable,
        ont_namespace: &str,
        file_namespace: &str,
    ) -> (r: Option<Triple>)
        requires
            old(self)@.wf(),
        ensures
            final(self)@.wf(),
            final(self)@ == spec_get_triple(
                old(self)@,
                text@,
                key_word_map@,
                ont_namespace@,
                file_namespace@,
            ).0,
            opt_triple_model(r) == spec_get_triple(
                old(self)@,
                text@,
                key_word_map@,
                ont_namespace@,
                file_namespace@,
            ).1,
    {
        let iri = resolve_predicate_iri(text, key_word_map, ont_namespace, file_namespace);
        if !named_node_accepts(iri.as_str()) {
            return None;
        }
        if self.next_blank == u64::MAX {
            return None;
        }
        let obj_id = self.next_blank;
        self.next_blank = obj_id + 1;
        let subject = self.current.clone();
        if self.depth > 0 {
            let d = self.depth;
            let ghost cb = self@.current_stack;
            if self.current_stack[d - 1].is_none() {
                let prev = self.current.clone();
                self.current_stack.set(d - 1, Some(prev));
                proof {
                    assert(self@.current_stack =~= cb.update(
                        d - 1,
                        Option::Some(old(self)@.current),
                    ));
                }
            }
        }
        self.current = Identifier::Blank(obj_id);
        Some(Triple { subject, predicate: iri, object: Identifier::Blank(obj_id) })
    }

    /// One full step on one visit record: reconcile the stacks to the
    /// record's depth, drop the root, non-named nodes and nodes of the
    /// designated non-semantic kind, and emit for what remains.
    pub fn process(
        &mut self,
        entry: &Entry,
        key_word_map: &KeywordTable,
        ont_namespace: &str,
        file_namespace: &str,
        comment_kind: &str,
    ) -> (r: Option<Triple>)
        requires
            old(self)@.wf(),
        ensures
            final(self)@.wf(),
            final(self)@ == spec_process(
                old(self)@,
                entry@,
                key_word_map@,
                ont_namespace@,
                file_namespace@,
                comment_kind@,
            ).0,
            opt_triple_model(r) == spec_process(
                old(self)@,
                entry@,
                key_word_map@,
                ont_namespace@,
                file_namespace@,
                comment_kind@,
            ).1,
    {
        self.new_depth(entry.depth);
        if entry.depth == 0 || !entry.is_named || str_eq(entry.kind.as_str(), comment_kind) {
            return None;
        }
        self.get_triple_from_node(
            entry.text.as_str(),
            key_word_map,
            ont_namespace,
            file_namespace,
        )
    }
}

/// Walk the whole tree and emit one triple per qualifying node, in
/// pre-order: exactly the fold of the generator over the tree's pre-order
/// visit sequence, started from the given initial subject.
pub fn generate(
    root: &Node,
    init: Identifier,
    key_word_map: &KeywordTable,
    ont_namespace: &str,
    file_namespace: &str,
    comment_kind: &str,
) -> (out: Vec<Triple>)
    ensures
        out@.map_values(|t: Triple| t@) == run(
            initial_state(init@),
            preorder(*root, 0),
            key_word_map@,
            ont_namespace@,
            file_namespace@,
            comment_kind@,
        ).1,
{
    let ghost table = key_word_map@;
    let ghost ont = ont_namespace@;
    let ghost file = file_namespace@;
    let ghost comment = comment_kind@;
    let ghost full = preorder(*root, 0);
    let cursor = Cursor::new(root);
    let mut walker = TreeCursorWalker::new(cursor);
    let mut gen = PddlStateWalker::new(init);
    let mut out: Vec<Triple> = Vec::new();
    proof {
        assert(out@.map_values(|t: Triple| t@) =~= Seq::<TripleModel>::empty());
        assert(out@.map_values(|t: Triple| t@) + run(gen@, walker.entries(), table, ont, file, comment).1
            =~= run(initial_state(init@), full, table, ont, file, comment).1);
    }
    loop
        invariant
            walker.wf(),
            gen@.wf(),
            full == preorder(*root, 0),
            table == key_word_map@,
            ont == ont_namespace@,
            file == file_namespace@,
            comment == comment_kind@,
            out@.map_values(|t: Triple| t@) + run(gen@, walker.entries(), table, ont, file, comment).1
                == run(initial_state(init@), full, table, ont, file, comment).1,
        decreases walker.entries().len(),
    {
        let ghost seen = out@.map_values(|t: Triple| t@);
        let ghost pending = walker.entries();
        let ghost gs = gen@;
        match walker.next() {
            Some(e) => {
                proof {
                    assert(pending.subrange(1, pending.len() as int) =~= pending.drop_first());
                }
                let t = gen.process(&e, key_word_map, ont_namespace, file_namespace, comment_kind);
                proof {
                    lemma_run_step(gs, pending, table, ont, file, comment);
                }
                match t {
                    Some(tr) => {
                        proof {
                            let step = spec_process(gs, e@, table, ont, file, comment);
                            assert(run(gs, pending, table, ont, file, comment).1 == seq![step.1->0]
                                + run(gen@, pending.drop_first(), table, ont, file, comment).1);
                        }
                        out.push(tr);
                        proof {
                            assert(out@.map_values(|x: Triple| x@) =~= seen.push(tr@));
                            assert(seen.push(tr@) + run(gen@, walker.entries(), table, ont, file, comment).1
                                =~= seen + run(gs, pending, table, ont, file, comment).1);
                        }
                    },
                    None => {
                        proof {
                            assert(run(gs, pending, table, ont, file, comment).1 == Seq::<
                                TripleModel,
                            >::empty() + run(gen@, pending.drop_first(), table, ont, file, comment).1);
                            assert(seen + run(gen@, walker.entries(), table, ont, file, comment).1
                                =~= seen + run(gs, pending, table, ont, file, comment).1);
                        }
                    },
                }
            },
            None => {
                proof {
                    assert(seen + run(gen@, walker.entries(), table, ont, file, comment).1 =~= seen);
                }
                return out;
            },
        }
    }
}

} // verus!
