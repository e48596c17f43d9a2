//! The passes that turn a parsed template into a page: inserting fragments,
//! giving headings their anchors, mounting scripts, and typesetting math.
use vstd::prelude::*;

use crate::dom::{
    attrs_view, events_view, html_fragment, AttrView, EventView, HtmlAttr, HtmlEvent, HtmlNode,
    NodeView,
};
use crate::dom::parse_fragment_events;
use crate::markup::{
    code_block_html, code_block_seq, inline_math_html, inline_math_seq, script_html, script_seq,
};
use crate::script::{swc_compile, swc_output};
use crate::heading::link_seq;
use crate::slug::{slug_seq, slugify};

verus! {

/// The index of the `End` that closes the node open at depth `depth` when the
/// walk reaches index `i`, or the walk's length when none does.
pub open spec fn close_of(ev: Seq<EventView>, i: int, depth: nat) -> int
    decreases ev.len() - i,
{
    if i < 0 || i >= ev.len() {
        ev.len() as int
    } else {
        match ev[i] {
            EventView::Start(_) => close_of(ev, i + 1, depth + 1),
            EventView::End => if depth <= 1 {
                i
            } else {
                close_of(ev, i + 1, (depth - 1) as nat)
            },
        }
    }
}

/// The index just after the node that starts at `k` and its descendants.
pub open spec fn end_of(ev: Seq<EventView>, k: int) -> int {
    let c = close_of(ev, k + 1, 1);
    if k < c && c < ev.len() {
        c + 1
    } else {
        ev.len() as int
    }
}

/// What a pass does at one step of the walk.
pub enum Step {
    Keep,
    Replace(EventView),
    Subtree(Seq<EventView>),
    Fail,
}

/// `a` in front of the walk `rest`, when there is one.
pub open spec fn prepend(a: Seq<EventView>, rest: Option<Seq<EventView>>) -> Option<Seq<EventView>> {
    match rest {
        Some(r) => Some(a + r),
        None => None,
    }
}

/// The walk from index `i` on with each step rewritten as `step` says: kept,
/// replaced by another step, or (with the node's descendants) replaced by a whole
/// walk; `None` when a step fails.
pub open spec fn rewrite(ev: Seq<EventView>, i: int, step: spec_fn(int) -> Step) -> Option<
    Seq<EventView>,
>
    decreases ev.len() - i,
{
    if i < 0 || i >= ev.len() {
        Some(Seq::<EventView>::empty())
    } else {
        match step(i) {
            Step::Keep => prepend(seq![ev[i]], rewrite(ev, i + 1, step)),
            Step::Replace(e) => prepend(seq![e], rewrite(ev, i + 1, step)),
            Step::Subtree(r) => prepend(r, rewrite(ev, end_of(ev, i), step)),
            Step::Fail => None,
        }
    }
}

/// Prepending twice is prepending the concatenation.
pub proof fn lemma_prepend_twice(a: Seq<EventView>, b: Seq<EventView>, rest: Option<Seq<EventView>>)
    ensures
        prepend(a, prepend(b, rest)) == prepend(a + b, rest),
{
    if let Some(r) = rest {
        assert(a + (b + r) =~= (a + b) + r);
    }
}

/// The step opens an element with this local name.
pub open spec fn is_element(e: EventView, name: Seq<char>) -> bool {
    e matches EventView::Start(NodeView::Element(_, l, _)) && l == name
}

/// The text of a step that opens a text node.
pub open spec fn text_of(e: EventView) -> Option<Seq<char>> {
    match e {
        EventView::Start(NodeView::Text(t)) => Some(t),
        _ => None,
    }
}

/// The text of the first child of the node opening at `i`.
pub open spec fn first_text(ev: Seq<EventView>, i: int) -> Option<Seq<char>> {
    if 0 <= i && i + 1 < ev.len() {
        text_of(ev[i + 1])
    } else {
        None
    }
}

/// The text of the first child of the first child of the node opening at `i`.
pub open spec fn inner_text(ev: Seq<EventView>, i: int) -> Option<Seq<char>> {
    if 0 <= i && i + 2 < ev.len() && ev[i + 1] is Start {
        text_of(ev[i + 2])
    } else {
        None
    }
}

/// A preformatted block whose inner text is `t` becomes display math.
pub open spec fn pre_step(ev: Seq<EventView>) -> spec_fn(int) -> Step {
    |i: int|
        if is_element(ev[i], "pre"@) && inner_text(ev, i) is Some {
            Step::Subtree(html_fragment(code_block_seq(inner_text(ev, i)->0)))
        } else {
            Step::Keep
        }
}

/// Inline code whose text is `$...$` becomes inline math.
pub open spec fn code_step(ev: Seq<EventView>) -> spec_fn(int) -> Step {
    |i: int|
        if is_element(ev[i], "code"@) && first_text(ev, i) is Some && inline_math_seq(
            first_text(ev, i)->0,
        ) is Some {
            Step::Subtree(html_fragment(inline_math_seq(first_text(ev, i)->0)->0))
        } else {
            Step::Keep
        }
}

/// The heading elements.
pub open spec fn is_heading(e: EventView) -> bool {
    is_element(e, "h1"@) || is_element(e, "h2"@) || is_element(e, "h3"@) || is_element(e, "h4"@)
        || is_element(e, "h5"@) || is_element(e, "h6"@) || is_element(e, "h7"@)
}

/// The attribute is `id` in no namespace.
pub open spec fn is_id_attr(a: AttrView) -> bool {
    a.ns == Seq::<char>::empty() && a.name == "id"@
}

/// The attribute list with `id` (in no namespace, without prefix) set to
/// `value`: the existing one changed, or a new one added at the end.
pub open spec fn set_id(attrs: Seq<AttrView>, value: Seq<char>) -> Seq<AttrView>
    decreases attrs.len(),
{
    if attrs.len() == 0 {
        seq![AttrView { ns: Seq::empty(), prefix: None, name: "id"@, value }]
    } else if is_id_attr(attrs[0]) {
        seq![AttrView { ns: attrs[0].ns, prefix: None, name: attrs[0].name, value }] + attrs.drop_first()
    } else {
        seq![attrs[0]] + set_id(attrs.drop_first(), value)
    }
}

/// Every heading's first child is a text node.
pub open spec fn headings_have_text(ev: Seq<EventView>) -> bool {
    forall|i: int| 0 <= i < ev.len() && is_heading(#[trigger] ev[i]) ==> first_text(ev, i) is Some
}

/// A heading gets the anchor of its text as its `id`; a heading whose first
/// child is not a text node fails the pass.
pub open spec fn link_step(ev: Seq<EventView>) -> spec_fn(int) -> Step {
    |i: int|
        match ev[i] {
            EventView::Start(NodeView::Element(ns, name, attrs)) => if is_heading(ev[i]) {
                match first_text(ev, i) {
                    Some(t) => Step::Replace(
                        EventView::Start(NodeView::Element(ns, name, set_id(attrs, slug_seq(t)))),
                    ),
                    None => Step::Fail,
                }
            } else {
                Step::Keep
            },
            _ => Step::Keep,
        }
}

/// The index of the last step that opens an element with this name, or -1.
pub open spec fn last_element(ev: Seq<EventView>, name: Seq<char>) -> int
    decreases ev.len(),
{
    if ev.len() == 0 {
        -1
    } else if is_element(ev.last(), name) {
        ev.len() - 1
    } else {
        last_element(ev.drop_last(), name)
    }
}

/// `frag` appended as the last child of the last element with this name (where a
/// node that several elements receive in turn ends up); the walk is unchanged
/// when there is none.
pub open spec fn append_to_last(ev: Seq<EventView>, name: Seq<char>, frag: Seq<EventView>) -> Seq<
    EventView,
> {
    let k = last_element(ev, name);
    if k < 0 {
        ev
    } else {
        let c = close_of(ev, k + 1, 1);
        ev.take(c) + frag + ev.skip(c)
    }
}

/// The index of the last step opening an element of this name lies in the walk.
pub proof fn lemma_last_element_bound(ev: Seq<EventView>, name: Seq<char>)
    ensures
        -1 <= last_element(ev, name) < ev.len(),
        last_element(ev, name) >= 0 ==> is_element(ev[last_element(ev, name)], name),
    decreases ev.len(),
{
    if ev.len() > 0 && !is_element(ev.last(), name) {
        lemma_last_element_bound(ev.drop_last(), name);
    }
}

/// The closing index lies between the start and the end of the walk.
pub proof fn lemma_close_bound(ev: Seq<EventView>, i: int, depth: nat)
    requires
        0 <= i,
    ensures
        i <= close_of(ev, i, depth) <= ev.len() || (i > ev.len() && close_of(ev, i, depth)
            == ev.len()),
    decreases ev.len() - i,
{
    if i < ev.len() {
        match ev[i] {
            EventView::Start(_) => lemma_close_bound(ev, i + 1, depth + 1),
            EventView::End => if depth > 1 {
                lemma_close_bound(ev, i + 1, (depth - 1) as nat);
            },
        }
    }
}

/// A copy of an attribute.
fn copy_attr(a: &HtmlAttr) -> (r: HtmlAttr)
    ensures
        r@ == a@,
{
    HtmlAttr {
        ns: a.ns.clone(),
        prefix: match &a.prefix {
            Some(p) => Some(p.clone()),
            None => None,
        },
        name: a.name.clone(),
        value: a.value.clone(),
    }
}

/// A copy of a list of attributes.
fn copy_attrs(attrs: &Vec<HtmlAttr>) -> (r: Vec<HtmlAttr>)
    ensures
        attrs_view(r@) == attrs_view(attrs@),
{
    let mut r: Vec<HtmlAttr> = Vec::new();
    let mut i: usize = 0;
    while i < attrs.len()
        invariant
            i <= attrs.len(),
            attrs_view(r@) == attrs_view(attrs@).take(i as int),
        decreases attrs.len() - i,
    {
        let ghost before = attrs_view(r@);
        r.push(copy_attr(&attrs[i]));
        proof {
            assert(attrs_view(r@) =~= before.push(attrs@[i as int]@));
            assert(attrs_view(attrs@).take(i + 1) =~= attrs_view(attrs@).take(i as int).push(
                attrs@[i as int]@,
            ));
        }
        i += 1;
    }
    proof {
        assert(attrs_view(attrs@).take(i as int) =~= attrs_view(attrs@));
    }
    r
}

/// A copy of a step.
pub fn copy_event(e: &HtmlEvent) -> (r: HtmlEvent)
    ensures
        r@ == e@,
{
    match e {
        HtmlEvent::End => HtmlEvent::End,
        HtmlEvent::Start(n) => HtmlEvent::Start(
            match n {
                HtmlNode::Document => HtmlNode::Document,
                HtmlNode::Fragment => HtmlNode::Fragment,
                HtmlNode::Doctype { name, public_id, system_id } => HtmlNode::Doctype {
                    name: name.clone(),
                    public_id: public_id.clone(),
                    system_id: system_id.clone(),
                },
                HtmlNode::Element { ns, name, attrs } => HtmlNode::Element {
                    ns: ns.clone(),
                    name: name.clone(),
                    attrs: copy_attrs(attrs),
                },
                HtmlNode::Text(t) => HtmlNode::Text(t.clone()),
                HtmlNode::Comment(t) => HtmlNode::Comment(t.clone()),
                HtmlNode::Instruction { target, data } => HtmlNode::Instruction {
                    target: target.clone(),
                    data: data.clone(),
                },
            },
        ),
    }
}

/// Appends a copy of every step of `tail` to `out`.
pub fn append_events(out: &mut Vec<HtmlEvent>, tail: &Vec<HtmlEvent>)
    ensures
        events_view(final(out)@) == events_view(old(out)@) + events_view(tail@),
{
    let mut i: usize = 0;
    while i < tail.len()
        invariant
            i <= tail.len(),
            events_view(out@) == events_view(old(out)@) + events_view(tail@).take(i as int),
        decreases tail.len() - i,
    {
        let ghost before = events_view(out@);
        out.push(copy_event(&tail[i]));
        proof {
            assert(events_view(out@) =~= before.push(tail@[i as int]@));
            assert(events_view(tail@).take(i + 1) =~= events_view(tail@).take(i as int).push(
                tail@[i as int]@,
            ));
        }
        i += 1;
    }
    proof {
        assert(events_view(tail@).take(i as int) =~= events_view(tail@));
    }
}

/// Pushes one step.
fn push_event(out: &mut Vec<HtmlEvent>, e: HtmlEvent)
    ensures
        events_view(final(out)@) == events_view(old(out)@).push(e@),
{
    let ghost before = events_view(out@);
    out.push(e);
    proof {
        assert(events_view(out@) =~= before.push(e@));
    }
}

/// The index of the `End` that closes the node opening at `k`, or the length.
pub fn close_index(ev: &Vec<HtmlEvent>, k: usize) -> (c: usize)
    requires
        k < ev.len(),
    ensures
        c == close_of(events_view(ev@), k + 1, 1),
{
    let ghost v = events_view(ev@);
    let mut j: usize = k + 1;
    let mut depth: usize = 1;
    while j < ev.len()
        invariant
            v == events_view(ev@),
            k < j <= ev.len(),
            1 <= depth <= j - k,
            close_of(v, k + 1, 1) == close_of(v, j as int, depth as nat),
        decreases ev.len() - j,
    {
        match &ev[j] {
            HtmlEvent::Start(_) => {
                depth += 1;
            },
            HtmlEvent::End => {
                if depth <= 1 {
                    return j;
                }
                depth -= 1;
            },
        }
        j += 1;
    }
    j
}

/// The index just after the node opening at `k` and its descendants.
pub fn end_index(ev: &Vec<HtmlEvent>, k: usize) -> (e: usize)
    requires
        k < ev.len(),
    ensures
        e == end_of(events_view(ev@), k as int),
        k < e <= ev.len(),
{
    let c = close_index(ev, k);
    if k < c && c < ev.len() {
        c + 1
    } else {
        ev.len()
    }
}

/// Whether a step opens an element with this local name.
pub fn event_is_element(e: &HtmlEvent, name: &str) -> (b: bool)
    ensures
        b == is_element(e@, name@),
{
    match e {
        HtmlEvent::Start(HtmlNode::Element { name: n, .. }) => *n == name.to_owned(),
        _ => false,
    }
}

/// The text of a step that opens a text node.
pub fn event_text(e: &HtmlEvent) -> (r: Option<String>)
    ensures
        r.deep_view() == text_of(e@),
{
    match e {
        HtmlEvent::Start(HtmlNode::Text(t)) => Some(t.clone()),
        _ => None,
    }
}

/// The text of the first child of the node opening at `i`.
fn first_text_at(ev: &Vec<HtmlEvent>, i: usize) -> (r: Option<String>)
    ensures
        r.deep_view() == first_text(events_view(ev@), i as int),
{
    if i < ev.len() && i + 1 < ev.len() {
        event_text(&ev[i + 1])
    } else {
        None
    }
}

/// The text of the first child of the first child of the node opening at `i`.
fn inner_text_at(ev: &Vec<HtmlEvent>, i: usize) -> (r: Option<String>)
    ensures
        r.deep_view() == inner_text(events_view(ev@), i as int),
{
    if i < ev.len() && i + 1 < ev.len() && i + 2 < ev.len() {
        match &ev[i + 1] {
            HtmlEvent::Start(_) => event_text(&ev[i + 2]),
            HtmlEvent::End => None,
        }
    } else {
        None
    }
}

/// The next step of a rewrite that keeps step `i`.
proof fn lemma_keep_step(
    v: Seq<EventView>,
    i: int,
    step: spec_fn(int) -> Step,
    out: Seq<EventView>,
    e: EventView,
)
    requires
        0 <= i < v.len(),
        step(i) == Step::Keep || step(i) == Step::Replace(e),
        step(i) == Step::Keep ==> e == v[i],
    ensures
        prepend(out, rewrite(v, i, step)) == prepend(out.push(e), rewrite(v, i + 1, step)),
{
    lemma_prepend_twice(out, seq![e], rewrite(v, i + 1, step));
    assert(out + seq![e] =~= out.push(e));
}

/// The next step of a rewrite that replaces the node at `i` with a walk.
proof fn lemma_subtree_step(
    v: Seq<EventView>,
    i: int,
    step: spec_fn(int) -> Step,
    out: Seq<EventView>,
    r: Seq<EventView>,
)
    requires
        0 <= i < v.len(),
        step(i) == Step::Subtree(r),
    ensures
        prepend(out, rewrite(v, i, step)) == prepend(out + r, rewrite(v, end_of(v, i), step)),
{
    lemma_prepend_twice(out, r, rewrite(v, end_of(v, i), step));
}

/// Display math: every preformatted block whose inner text is `t` replaced by the
/// fragment `<span code-block>$$t$$</span>`.
pub fn pre_pass(doc: &Vec<HtmlEvent>) -> (r: Vec<HtmlEvent>)
    ensures
        rewrite(events_view(doc@), 0, pre_step(events_view(doc@))) == Some(events_view(r@)),
{
    let ghost v = events_view(doc@);
    let ghost step = pre_step(v);
    let mut out: Vec<HtmlEvent> = Vec::new();
    let mut i: usize = 0;
    proof {
        assert(events_view(out@) =~= Seq::<EventView>::empty());
        assert(prepend(Seq::<EventView>::empty(), rewrite(v, 0, step)) =~= rewrite(v, 0, step)) by {
            if let Some(x) = rewrite(v, 0, step) {
                assert(Seq::<EventView>::empty() + x =~= x);
            }
        }
    }
    while i < doc.len()
        invariant
            v == events_view(doc@),
            step == pre_step(v),
            i <= doc.len(),
            rewrite(v, 0, step) == prepend(events_view(out@), rewrite(v, i as int, step)),
        decreases doc.len() - i,
    {
        if event_is_element(&doc[i], "pre") {
            if let Some(t) = inner_text_at(doc, i) {
                let frag = parse_fragment_events(code_block_html(t.as_str()).as_str());
                proof {
                    lemma_subtree_step(v, i as int, step, events_view(out@), events_view(frag@));
                }
                append_events(&mut out, &frag);
                i = end_index(doc, i);
                continue ;
            }
        }
        proof {
            lemma_keep_step(v, i as int, step, events_view(out@), v[i as int]);
        }
        push_event(&mut out, copy_event(&doc[i]));
        i += 1;
    }
    proof {
        if let Some(x) = rewrite(v, i as int, step) {
            assert(events_view(out@) + x =~= events_view(out@));
        }
    }
    out
}

/// Inline math: every inline code element whose text is `$t$` (once trimmed)
/// replaced by the fragment `<span inline-code>\\(t\\)</span>`.
pub fn code_pass(doc: &Vec<HtmlEvent>) -> (r: Vec<HtmlEvent>)
    ensures
        rewrite(events_view(doc@), 0, code_step(events_view(doc@))) == Some(events_view(r@)),
{
    let ghost v = events_view(doc@);
    let ghost step = code_step(v);
    let mut out: Vec<HtmlEvent> = Vec::new();
    let mut i: usize = 0;
    proof {
        assert(events_view(out@) =~= Seq::<EventView>::empty());
        assert(prepend(Seq::<EventView>::empty(), rewrite(v, 0, step)) =~= rewrite(v, 0, step)) by {
            if let Some(x) = rewrite(v, 0, step) {
                assert(Seq::<EventView>::empty() + x =~= x);
            }
        }
    }
    while i < doc.len()
        invariant
            v == events_view(doc@),
            step == code_step(v),
            i <= doc.len(),
            rewrite(v, 0, step) == prepend(events_view(out@), rewrite(v, i as int, step)),
        decreases doc.len() - i,
    {
        if event_is_element(&doc[i], "code") {
            if let Some(t) = first_text_at(doc, i) {
                if let Some(math) = inline_math_html(t.as_str()) {
                    let frag = parse_fragment_events(math.as_str());
                    proof {
                        lemma_subtree_step(v, i as int, step, events_view(out@), events_view(frag@));
                    }
                    append_events(&mut out, &frag);
                    i = end_index(doc, i);
                    continue ;
                }
            }
        }
        proof {
            lemma_keep_step(v, i as int, step, events_view(out@), v[i as int]);
        }
        push_event(&mut out, copy_event(&doc[i]));
        i += 1;
    }
    proof {
        if let Some(x) = rewrite(v, i as int, step) {
            assert(events_view(out@) + x =~= events_view(out@));
        }
    }
    out
}

/// Setting `id` changes the first `id` attribute, when there is one.
proof fn lemma_set_id_at(attrs: Seq<AttrView>, value: Seq<char>, k: int)
    requires
        0 <= k < attrs.len(),
        is_id_attr(attrs[k]),
        forall|j: int| 0 <= j < k ==> !is_id_attr(#[trigger] attrs[j]),
    ensures
        set_id(attrs, value) == attrs.update(
            k,
            AttrView { ns: attrs[k].ns, prefix: None, name: attrs[k].name, value },
        ),
    decreases attrs.len(),
{
    if k > 0 {
        assert(!is_id_attr(attrs[0]));
        let rest = attrs.drop_first();
        assert forall|j: int| 0 <= j < k - 1 implies !is_id_attr(#[trigger] rest[j]) by {
            assert(rest[j] == attrs[j + 1]);
        }
        lemma_set_id_at(rest, value, k - 1);
        assert(seq![attrs[0]] + rest.update(
            k - 1,
            AttrView { ns: attrs[k].ns, prefix: None, name: attrs[k].name, value },
        ) =~= attrs.update(k, AttrView { ns: attrs[k].ns, prefix: None, name: attrs[k].name, value }));
    } else {
        assert(seq![AttrView { ns: attrs[0].ns, prefix: None, name: attrs[0].name, value }] + attrs.drop_first()
            =~= attrs.update(0, AttrView { ns: attrs[0].ns, prefix: None, name: attrs[0].name, value }));
    }
}

/// Setting `id` where there is none adds it at the end.
proof fn lemma_set_id_absent(attrs: Seq<AttrView>, value: Seq<char>)
    requires
        forall|j: int| 0 <= j < attrs.len() ==> !is_id_attr(#[trigger] attrs[j]),
    ensures
        set_id(attrs, value) == attrs.push(AttrView { ns: Seq::empty(), prefix: None, name: "id"@, value }),
    decreases attrs.len(),
{
    if attrs.len() > 0 {
        assert(!is_id_attr(attrs[0]));
        let rest = attrs.drop_first();
        assert forall|j: int| 0 <= j < rest.len() implies !is_id_attr(#[trigger] rest[j]) by {
            assert(rest[j] == attrs[j + 1]);
        }
        lemma_set_id_absent(rest, value);
        assert(seq![attrs[0]] + rest.push(AttrView { ns: Seq::empty(), prefix: None, name: "id"@, value })
            =~= attrs.push(AttrView { ns: Seq::empty(), prefix: None, name: "id"@, value }));
    }
}

/// After setting `id`, the list holds an `id` attribute in no namespace whose
/// value is the one set.
pub proof fn lemma_set_id_holds(attrs: Seq<AttrView>, value: Seq<char>)
    ensures
        exists|k: int|
            0 <= k < set_id(attrs, value).len() && is_id_attr(#[trigger] set_id(attrs, value)[k])
                && set_id(attrs, value)[k].value == value,
    decreases attrs.len(),
{
    if attrs.len() == 0 {
        assert(is_id_attr(set_id(attrs, value)[0]));
    } else if is_id_attr(attrs[0]) {
        assert(is_id_attr(set_id(attrs, value)[0]));
    } else {
        lemma_set_id_holds(attrs.drop_first(), value);
        let k = choose|k: int|
            0 <= k < set_id(attrs.drop_first(), value).len() && is_id_attr(
                #[trigger] set_id(attrs.drop_first(), value)[k],
            ) && set_id(attrs.drop_first(), value)[k].value == value;
        assert(set_id(attrs, value)[k + 1] == set_id(attrs.drop_first(), value)[k]);
    }
}

/// Whether an attribute is `id` in no namespace.
fn attr_is_id(a: &HtmlAttr) -> (b: bool)
    ensures
        b == is_id_attr(a@),
{
    proof {
        reveal_strlit("id");
        if a.ns@.len() == 0 {
            assert(a.ns@ =~= Seq::<char>::empty());
        }
    }
    let no_ns = a.ns.as_str().is_empty();
    let id = "id".to_owned();
    no_ns && a.name == id
}

/// The attributes with `id` set to `value`.
fn set_id_attrs(attrs: &Vec<HtmlAttr>, value: &String) -> (r: Vec<HtmlAttr>)
    ensures
        attrs_view(r@) == set_id(attrs_view(attrs@), value@),
{
    let ghost av = attrs_view(attrs@);
    let mut r = copy_attrs(attrs);
    let mut j: usize = 0;
    while j < attrs.len()
        invariant
            av == attrs_view(attrs@),
            attrs_view(r@) == av,
            j <= attrs.len(),
            forall|k: int| 0 <= k < j ==> !is_id_attr(#[trigger] av[k]),
        decreases attrs.len() - j,
    {
        if attr_is_id(&attrs[j]) {
            let a = HtmlAttr {
                ns: attrs[j].ns.clone(),
                prefix: None,
                name: attrs[j].name.clone(),
                value: value.clone(),
            };
            proof {
                lemma_set_id_at(av, value@, j as int);
            }
            let ghost before = r@;
            r.set(j, a);
            proof {
                assert(attrs_view(r@) =~= av.update(
                    j as int,
                    AttrView { ns: av[j as int].ns, prefix: None, name: av[j as int].name, value: value@ },
                ));
            }
            return r;
        }
        j += 1;
    }
    proof {
        lemma_set_id_absent(av, value@);
        reveal_strlit("id");
    }
    let a = HtmlAttr {
        ns: String::new(),
        prefix: None,
        name: "id".to_owned(),
        value: value.clone(),
    };
    let ghost before = r@;
    r.push(a);
    proof {
        assert(attrs_view(r@) =~= av.push(AttrView { ns: Seq::empty(), prefix: None, name: "id"@, value: value@ }));
    }
    r
}

/// Whether a step opens a heading element.
fn event_is_heading(e: &HtmlEvent) -> (b: bool)
    ensures
        b == is_heading(e@),
{
    event_is_element(e, "h1") || event_is_element(e, "h2") || event_is_element(e, "h3")
        || event_is_element(e, "h4") || event_is_element(e, "h5") || event_is_element(e, "h6")
        || event_is_element(e, "h7")
}

/// Anchors: every heading gets the anchor of its text as its `id`.  Every
/// heading's first child must be a text node.
pub fn links_pass(doc: &Vec<HtmlEvent>) -> (r: Vec<HtmlEvent>)
    requires
        headings_have_text(events_view(doc@)),
    ensures
        rewrite(events_view(doc@), 0, link_step(events_view(doc@))) == Some(events_view(r@)),
{
    let ghost v = events_view(doc@);
    let ghost step = link_step(v);
    let mut out: Vec<HtmlEvent> = Vec::new();
    let mut i: usize = 0;
    proof {
        lemma_links_succeed_iff_headings_have_text(v);
        assert(events_view(out@) =~= Seq::<EventView>::empty());
        assert(prepend(Seq::<EventView>::empty(), rewrite(v, 0, step)) =~= rewrite(v, 0, step)) by {
            if let Some(x) = rewrite(v, 0, step) {
                assert(Seq::<EventView>::empty() + x =~= x);
            }
        }
    }
    while i < doc.len()
        invariant
            v == events_view(doc@),
            step == link_step(v),
            rewrite(v, 0, step) is Some,
            i <= doc.len(),
            rewrite(v, 0, step) == prepend(events_view(out@), rewrite(v, i as int, step)),
        decreases doc.len() - i,
    {
        let heading = event_is_heading(&doc[i]);
        if heading {
            if let HtmlEvent::Start(HtmlNode::Element { ns, name, attrs }) = &doc[i] {
                match first_text_at(doc, i) {
                    None => {
                        proof {
                            assert(step(i as int) is Fail);
                        }
                        return Vec::new();
                    },
                    Some(t) => {
                        let anchor = slugify(t.as_str());
                        let e = HtmlEvent::Start(
                            HtmlNode::Element {
                                ns: ns.clone(),
                                name: name.clone(),
                                attrs: set_id_attrs(attrs, &anchor),
                            },
                        );
                        proof {
                            lemma_keep_step(v, i as int, step, events_view(out@), e@);
                        }
                        push_event(&mut out, e);
                        i += 1;
                        continue ;
                    },
                }
            }
        }
        proof {
            lemma_keep_step(v, i as int, step, events_view(out@), v[i as int]);
        }
        push_event(&mut out, copy_event(&doc[i]));
        i += 1;
    }
    proof {
        if let Some(x) = rewrite(v, i as int, step) {
            assert(events_view(out@) + x =~= events_view(out@));
        }
    }
    out
}

/// Appends a copy of the steps `from..to` of `ev` to `out`.
fn append_range(out: &mut Vec<HtmlEvent>, ev: &Vec<HtmlEvent>, from: usize, to: usize)
    requires
        from <= to <= ev.len(),
    ensures
        events_view(final(out)@) == events_view(old(out)@) + events_view(ev@).subrange(
            from as int,
            to as int,
        ),
{
    let ghost start = events_view(out@);
    let mut i: usize = from;
    while i < to
        invariant
            from <= i <= to <= ev.len(),
            events_view(out@) == start + events_view(ev@).subrange(from as int, i as int),
        decreases to - i,
    {
        push_event(out, copy_event(&ev[i]));
        proof {
            assert(events_view(ev@).subrange(from as int, i + 1) =~= events_view(ev@).subrange(
                from as int,
                i as int,
            ).push(ev@[i as int]@));
        }
        i += 1;
    }
}

/// The index of the last step opening an element with this name.
fn last_element_index(ev: &Vec<HtmlEvent>, name: &str) -> (r: Option<usize>)
    ensures
        match r {
            Some(k) => k == last_element(events_view(ev@), name@),
            None => last_element(events_view(ev@), name@) == -1,
        },
{
    let ghost v = events_view(ev@);
    let mut i: usize = ev.len();
    proof {
        assert(v.take(ev.len() as int) =~= v);
    }
    while i > 0
        invariant
            v == events_view(ev@),
            i <= ev.len(),
            last_element(v, name@) == last_element(v.take(i as int), name@),
        decreases i,
    {
        proof {
            assert(v.take(i as int).drop_last() =~= v.take(i - 1));
            assert(v.take(i as int).last() == v[i - 1]);
        }
        if event_is_element(&ev[i - 1], name) {
            return Some(i - 1);
        }
        i -= 1;
    }
    None
}

/// The document with the fragment parsed from `html` appended as the last child
/// of the last element with this name (unchanged when there is none).
pub fn append_fragment_to_last(doc: &Vec<HtmlEvent>, name: &str, html: &str) -> (r: Vec<
    HtmlEvent,
>)
    ensures
        events_view(r@) == append_to_last(events_view(doc@), name@, html_fragment(html@)),
{
    let ghost v = events_view(doc@);
    let frag = parse_fragment_events(html);
    let mut out: Vec<HtmlEvent> = Vec::new();
    proof {
        assert(events_view(out@) =~= Seq::<EventView>::empty());
    }
    match last_element_index(doc, name) {
        None => {
            append_range(&mut out, doc, 0, doc.len());
            proof {
                assert(Seq::<EventView>::empty() + v.subrange(0, v.len() as int) =~= v);
            }
        },
        Some(k) => {
            proof {
                lemma_last_element_bound(v, name@);
                lemma_close_bound(v, k + 1, 1);
            }
            let c = close_index(doc, k);
            append_range(&mut out, doc, 0, c);
            append_events(&mut out, &frag);
            append_range(&mut out, doc, c, doc.len());
            proof {
                assert(Seq::<EventView>::empty() + v.subrange(0, c as int) + events_view(frag@)
                    + v.subrange(c as int, v.len() as int) =~= v.take(c as int) + events_view(
                    frag@,
                ) + v.skip(c as int));
            }
        },
    }
    out
}

/// A script that a page mounts: the `src` that its script element names, the
/// module that the compiled code defines, the file name that swc is given (its
/// extension selects TypeScript or JavaScript), and the file's text.
pub struct ScriptFile {
    pub src: String,
    pub module: String,
    pub file_name: String,
    pub source: String,
}

/// A script as values.
pub struct ScriptView {
    pub src: Seq<char>,
    pub module: Seq<char>,
    pub file_name: Seq<char>,
    pub source: Seq<char>,
}

impl View for ScriptFile {
    type V = ScriptView;

    open spec fn view(&self) -> ScriptView {
        ScriptView {
            src: self.src@,
            module: self.module@,
            file_name: self.file_name@,
            source: self.source@,
        }
    }
}

/// The values of a list of scripts.
pub open spec fn scripts_view(scripts: Seq<ScriptFile>) -> Seq<ScriptView> {
    Seq::new(scripts.len(), |i: int| scripts[i]@)
}

/// The value of the first attribute in no namespace with this name.
pub open spec fn attr_value(attrs: Seq<AttrView>, name: Seq<char>) -> Option<Seq<char>>
    decreases attrs.len(),
{
    if attrs.len() == 0 {
        None
    } else if attrs[0].ns == Seq::<char>::empty() && attrs[0].name == name {
        Some(attrs[0].value)
    } else {
        attr_value(attrs.drop_first(), name)
    }
}

/// The index of the first script with this `src`.
pub open spec fn find_script(scripts: Seq<ScriptView>, src: Seq<char>) -> Option<int>
    decreases scripts.len(),
{
    if scripts.len() == 0 {
        None
    } else if scripts[0].src == src {
        Some(0)
    } else {
        match find_script(scripts.drop_first(), src) {
            Some(k) => Some(k + 1),
            None => None,
        }
    }
}

/// The id drawn for the step at `i` (0 past the end of the draws).
pub open spec fn id_at(ids: Seq<u64>, i: int) -> u64 {
    if 0 <= i < ids.len() {
        ids[i]
    } else {
        0
    }
}

/// The `src` of a step that opens a script element with one.
pub open spec fn script_src(e: EventView) -> Option<Seq<char>> {
    match e {
        EventView::Start(NodeView::Element(_, name, attrs)) => if name == "script"@ {
            attr_value(attrs, "src"@)
        } else {
            None
        },
        _ => None,
    }
}

/// A script element with a `src` becomes the fragment that mounts its compiled
/// code under the id drawn for it; the pass fails when no script has that `src`
/// or swc does not compile it.
pub open spec fn script_step(ev: Seq<EventView>, scripts: Seq<ScriptView>, ids: Seq<u64>) -> spec_fn(
    int,
) -> Step {
    |i: int|
        match script_src(ev[i]) {
            None => Step::Keep,
            Some(src) => match find_script(scripts, src) {
                None => Step::Fail,
                Some(k) => match swc_output(scripts[k].file_name, scripts[k].source) {
                    None => Step::Fail,
                    Some(js) => Step::Subtree(
                        html_fragment(script_seq(id_at(ids, i), scripts[k].module, js)),
                    ),
                },
            },
        }
}

/// The value of the first attribute in no namespace with this name.
fn attr_value_of(attrs: &Vec<HtmlAttr>, name: &str) -> (r: Option<String>)
    ensures
        r.deep_view() == attr_value(attrs_view(attrs@), name@),
{
    let ghost av = attrs_view(attrs@);
    let mut j: usize = 0;
    proof {
        assert(av.skip(0) =~= av);
    }
    while j < attrs.len()
        invariant
            av == attrs_view(attrs@),
            j <= attrs.len(),
            attr_value(av, name@) == attr_value(av.skip(j as int), name@),
        decreases attrs.len() - j,
    {
        proof {
            assert(av.skip(j as int).drop_first() =~= av.skip(j + 1));
            assert(av.skip(j as int)[0] == av[j as int]);
            if attrs@[j as int].ns@.len() == 0 {
                assert(attrs@[j as int].ns@ =~= Seq::<char>::empty());
            }
        }
        let no_ns = attrs[j].ns.as_str().is_empty();
        let wanted = name.to_owned();
        if no_ns && attrs[j].name == wanted {
            return Some(attrs[j].value.clone());
        }
        j += 1;
    }
    None
}

/// The `src` of a step that opens a script element with one.
pub(crate) fn script_src_of(e: &HtmlEvent) -> (r: Option<String>)
    ensures
        r.deep_view() == script_src(e@),
{
    match e {
        HtmlEvent::Start(HtmlNode::Element { name, attrs, .. }) => {
            let script = "script".to_owned();
            if *name == script {
                attr_value_of(attrs, "src")
            } else {
                None
            }
        },
        _ => None,
    }
}

/// The index of the first script with this `src`.
fn find_script_index(scripts: &Vec<ScriptFile>, src: &String) -> (r: Option<usize>)
    ensures
        match r {
            Some(k) => find_script(scripts_view(scripts@), src@) == Some(k as int) && k
                < scripts.len(),
            None => find_script(scripts_view(scripts@), src@) is None,
        },
{
    let ghost sv = scripts_view(scripts@);
    let mut j: usize = 0;
    proof {
        assert(sv.skip(0) =~= sv);
    }
    while j < scripts.len()
        invariant
            sv == scripts_view(scripts@),
            j <= scripts.len(),
            find_script(sv, src@) == match find_script(sv.skip(j as int), src@) {
                Some(k) => Some(k + j),
                None => None,
            },
        decreases scripts.len() - j,
    {
        proof {
            assert(sv.skip(j as int).drop_first() =~= sv.skip(j + 1));
            assert(sv.skip(j as int)[0] == sv[j as int]);
        }
        if scripts[j].src == *src {
            return Some(j);
        }
        j += 1;
    }
    None
}

/// Scripts: every script element with a `src` replaced by the fragment that
/// mounts the compiled code of the script with that `src`, under the id at its
/// index in `ids`.  Every such script must be given and compile.
pub fn scripts_pass(doc: &Vec<HtmlEvent>, scripts: &Vec<ScriptFile>, ids: &Vec<u64>) -> (r: Vec<
    HtmlEvent,
>)
    requires
        rewrite(
            events_view(doc@),
            0,
            script_step(events_view(doc@), scripts_view(scripts@), ids@),
        ) is Some,
    ensures
        rewrite(
            events_view(doc@),
            0,
            script_step(events_view(doc@), scripts_view(scripts@), ids@),
        ) == Some(events_view(r@)),
{
    let ghost v = events_view(doc@);
    let ghost step = script_step(v, scripts_view(scripts@), ids@);
    let mut out: Vec<HtmlEvent> = Vec::new();
    let mut i: usize = 0;
    proof {
        assert(events_view(out@) =~= Seq::<EventView>::empty());
        assert(prepend(Seq::<EventView>::empty(), rewrite(v, 0, step)) =~= rewrite(v, 0, step)) by {
            if let Some(x) = rewrite(v, 0, step) {
                assert(Seq::<EventView>::empty() + x =~= x);
            }
        }
    }
    while i < doc.len()
        invariant
            v == events_view(doc@),
            step == script_step(v, scripts_view(scripts@), ids@),
            rewrite(v, 0, step) is Some,
            i <= doc.len(),
            rewrite(v, 0, step) == prepend(events_view(out@), rewrite(v, i as int, step)),
        decreases doc.len() - i,
    {
        if let Some(src) = script_src_of(&doc[i]) {
            match find_script_index(scripts, &src) {
                None => {
                    proof {
                        assert(step(i as int) is Fail);
                    }
                    return Vec::new();
                },
                Some(k) => {
                    let script = &scripts[k];
                    match swc_compile(script.file_name.as_str(), script.source.as_str()) {
                        None => {
                            proof {
                                assert(step(i as int) is Fail);
                            }
                            return Vec::new();
                        },
                        Some(js) => {
                            let id: u64 = if i < ids.len() {
                                ids[i]
                            } else {
                                0
                            };
                            let html = script_html(id, script.module.as_str(), js.as_str());
                            let frag = parse_fragment_events(html.as_str());
                            proof {
                                lemma_subtree_step(
                                    v,
                                    i as int,
                                    step,
                                    events_view(out@),
                                    events_view(frag@),
                                );
                            }
                            append_events(&mut out, &frag);
                            i = end_index(doc, i);
                            continue ;
                        },
                    }
                },
            }
        }
        proof {
            lemma_keep_step(v, i as int, step, events_view(out@), v[i as int]);
        }
        push_event(&mut out, copy_event(&doc[i]));
        i += 1;
    }
    proof {
        if let Some(x) = rewrite(v, i as int, step) {
            assert(events_view(out@) + x =~= events_view(out@));
        }
    }
    out
}

/// The step that a pass without subtree replacements leaves at index `j`.
pub open spec fn step_result(ev: Seq<EventView>, step: spec_fn(int) -> Step, j: int) -> EventView {
    match step(j) {
        Step::Replace(e) => e,
        _ => ev[j],
    }
}

/// A rewrite that replaces no subtree succeeds exactly when no step fails, and
/// then keeps or replaces each step in place.
pub proof fn lemma_rewrite_in_place(ev: Seq<EventView>, i: int, step: spec_fn(int) -> Step)
    requires
        0 <= i <= ev.len(),
        forall|j: int| i <= j < ev.len() ==> !(#[trigger] step(j) is Subtree),
    ensures
        rewrite(ev, i, step) is Some <==> forall|j: int|
            i <= j < ev.len() ==> !(#[trigger] step(j) is Fail),
        rewrite(ev, i, step) is Some ==> rewrite(ev, i, step)->0.len() == ev.len() - i,
        rewrite(ev, i, step) is Some ==> forall|j: int|
            i <= j < ev.len() ==> rewrite(ev, i, step)->0[j - i] == #[trigger] step_result(
                ev,
                step,
                j,
            ),
    decreases ev.len() - i,
{
    if i < ev.len() {
        lemma_rewrite_in_place(ev, i + 1, step);
        let s = step(i);
        if rewrite(ev, i, step) is Some {
            let out = rewrite(ev, i, step)->0;
            let rest = rewrite(ev, i + 1, step)->0;
            assert forall|j: int| i <= j < ev.len() implies out[j - i] == #[trigger] step_result(
                ev,
                step,
                j,
            ) by {
                if j > i {
                    assert(out[j - i] == rest[j - (i + 1)]);
                }
            }
        }
        if !(rewrite(ev, i, step) is Some) && !(s is Fail) {
            assert(!(rewrite(ev, i + 1, step) is Some));
        }
    }
}

/// Every heading of the walk has a text node as its first child.
pub proof fn lemma_links_succeed_iff_headings_have_text(ev: Seq<EventView>)
    ensures
        rewrite(ev, 0, link_step(ev)) is Some <==> headings_have_text(ev),
        rewrite(ev, 0, link_step(ev)) is Some ==> rewrite(ev, 0, link_step(ev))->0.len()
            == ev.len(),
{
    let step = link_step(ev);
    assert forall|j: int| 0 <= j < ev.len() implies !(#[trigger] step(j) is Subtree) by {}
    lemma_rewrite_in_place(ev, 0, step);
    if rewrite(ev, 0, step) is Some {
        assert forall|i: int| 0 <= i < ev.len() && is_heading(#[trigger] ev[i]) implies first_text(
            ev,
            i,
        ) is Some by {
            assert(!(step(i) is Fail));
        }
    }
    if headings_have_text(ev) {
        assert forall|j: int| 0 <= j < ev.len() implies !(#[trigger] step(j) is Fail) by {
            if is_heading(ev[j]) {
                assert(first_text(ev, j) is Some);
            }
        }
    }
}

/// After the anchor pass, every heading carries, as its `id`, the anchor that a
/// table-of-contents link to its title points to: `[title](#anchor)`.
pub proof fn lemma_heading_id_is_toc_anchor(ev: Seq<EventView>, i: int)
    requires
        0 <= i < ev.len(),
        is_heading(ev[i]),
        rewrite(ev, 0, link_step(ev)) is Some,
    ensures
        first_text(ev, i) is Some,
        rewrite(ev, 0, link_step(ev))->0.len() == ev.len(),
        rewrite(ev, 0, link_step(ev))->0[i] matches EventView::Start(
            NodeView::Element(_, name, attrs),
        ) && is_heading(rewrite(ev, 0, link_step(ev))->0[i]) && exists|k: int|
            0 <= k < attrs.len() && is_id_attr(#[trigger] attrs[k]) && link_seq(
                first_text(ev, i)->0,
            ) == seq!['['] + first_text(ev, i)->0 + seq![']', '(', '#'] + attrs[k].value + seq![
                ')',
            ],
{
    let step = link_step(ev);
    assert forall|j: int| 0 <= j < ev.len() implies !(#[trigger] step(j) is Subtree) by {}
    lemma_rewrite_in_place(ev, 0, step);
    lemma_links_succeed_iff_headings_have_text(ev);
    assert(!(step(i) is Fail));
    let t = first_text(ev, i)->0;
    let out = rewrite(ev, 0, step)->0;
    assert(out[i - 0] == step_result(ev, step, i));
    if let EventView::Start(NodeView::Element(ns, name, attrs)) = ev[i] {
        lemma_set_id_holds(attrs, slug_seq(t));
        let na = set_id(attrs, slug_seq(t));
        assert(out[i] == EventView::Start(NodeView::Element(ns, name, na)));
        let k = choose|k: int| 0 <= k < na.len() && is_id_attr(#[trigger] na[k]) && na[k].value == slug_seq(t);
        assert(is_heading(out[i]));
        assert(link_seq(t) == seq!['['] + t + seq![']', '(', '#'] + na[k].value + seq![')']);
        assert(exists|k2: int|
            0 <= k2 < na.len() && is_id_attr(#[trigger] na[k2]) && link_seq(t) == seq!['['] + t
                + seq![']', '(', '#'] + na[k2].value + seq![')']);
        assert(out[i] matches EventView::Start(NodeView::Element(_, name2, attrs2)) && attrs2 == na);
    }
}

/// A rewrite none of whose steps fails succeeds.
pub proof fn lemma_rewrite_no_fail(ev: Seq<EventView>, i: int, step: spec_fn(int) -> Step)
    requires
        forall|j: int| 0 <= j < ev.len() ==> !(#[trigger] step(j) is Fail),
    ensures
        rewrite(ev, i, step) is Some,
    decreases ev.len() - i,
{
    if 0 <= i < ev.len() {
        match step(i) {
            Step::Subtree(_) => lemma_rewrite_no_fail(ev, end_of(ev, i), step),
            _ => lemma_rewrite_no_fail(ev, i + 1, step),
        }
    }
}

/// The math passes never fail.
pub proof fn lemma_math_passes_succeed(ev: Seq<EventView>)
    ensures
        rewrite(ev, 0, pre_step(ev)) is Some,
        rewrite(ev, 0, code_step(ev)) is Some,
{
    let p = pre_step(ev);
    let c = code_step(ev);
    assert forall|j: int| 0 <= j < ev.len() implies !(#[trigger] p(j) is Fail) by {}
    assert forall|j: int| 0 <= j < ev.len() implies !(#[trigger] c(j) is Fail) by {}
    lemma_rewrite_no_fail(ev, 0, p);
    lemma_rewrite_no_fail(ev, 0, c);
}

/// Whether the scripts pass succeeds does not depend on the ids drawn.
pub proof fn lemma_scripts_outcome_ignores_ids(
    ev: Seq<EventView>,
    i: int,
    scripts: Seq<ScriptView>,
    ids1: Seq<u64>,
    ids2: Seq<u64>,
)
    ensures
        (rewrite(ev, i, script_step(ev, scripts, ids1)) is Some) == (rewrite(
            ev,
            i,
            script_step(ev, scripts, ids2),
        ) is Some),
    decreases ev.len() - i,
{
    if 0 <= i < ev.len() {
        let s1 = script_step(ev, scripts, ids1);
        let s2 = script_step(ev, scripts, ids2);
        match s1(i) {
            Step::Subtree(_) => {
                assert(s2(i) is Subtree);
                lemma_scripts_outcome_ignores_ids(ev, end_of(ev, i), scripts, ids1, ids2);
            },
            Step::Fail => {
                assert(s2(i) is Fail);
            },
            _ => {
                assert(s2(i) is Keep);
                lemma_scripts_outcome_ignores_ids(ev, i + 1, scripts, ids1, ids2);
            },
        }
    }
}

/// Whether every heading of the document has a text node as its first child
/// (the anchors pass needs that text).
pub fn headings_start_with_text(doc: &Vec<HtmlEvent>) -> (b: bool)
    ensures
        b == headings_have_text(events_view(doc@)),
{
    let ghost v = events_view(doc@);
    let mut i: usize = 0;
    while i < doc.len()
        invariant
            v == events_view(doc@),
            i <= doc.len(),
            forall|j: int| 0 <= j < i && is_heading(#[trigger] v[j]) ==> first_text(v, j) is Some,
        decreases doc.len() - i,
    {
        if event_is_heading(&doc[i]) && first_text_at(doc, i).is_none() {
            assert(is_heading(v[i as int]) && !(first_text(v, i as int) is Some));
            return false;
        }
        i += 1;
    }
    true
}

/// No step of the walk opens a script element with a `src`.
pub open spec fn no_script_sources(ev: Seq<EventView>) -> bool {
    forall|j: int| 0 <= j < ev.len() ==> script_src(#[trigger] ev[j]) is None
}

/// Where no element is a script with a `src`, the scripts pass keeps the walk as
/// it is, whatever the ids.
pub proof fn lemma_scripts_pass_without_sources(
    ev: Seq<EventView>,
    scripts: Seq<ScriptView>,
    ids: Seq<u64>,
)
    requires
        no_script_sources(ev),
    ensures
        rewrite(ev, 0, script_step(ev, scripts, ids)) == Some(ev),
{
    let step = script_step(ev, scripts, ids);
    assert forall|j: int| 0 <= j < ev.len() implies #[trigger] step(j) == Step::Keep by {
        assert(script_src(ev[j]) is None);
    }
    assert forall|j: int| 0 <= j < ev.len() implies !(#[trigger] step(j) is Subtree) by {
        assert(step(j) == Step::Keep);
    }
    lemma_rewrite_in_place(ev, 0, step);
    assert forall|j: int| 0 <= j < ev.len() implies !(#[trigger] step(j) is Fail) by {
        assert(step(j) == Step::Keep);
    }
    let out = rewrite(ev, 0, step)->0;
    assert forall|j: int| 0 <= j < ev.len() implies out[j] == ev[j] by {
        assert(out[j - 0] == step_result(ev, step, j));
        assert(step(j) == Step::Keep);
    }
    assert(out =~= ev);
}

/// The anchors pass opens no new script element with a `src`: it only changes
/// the attributes of headings.
pub proof fn lemma_links_keep_no_script_sources(ev: Seq<EventView>)
    requires
        no_script_sources(ev),
        rewrite(ev, 0, link_step(ev)) is Some,
    ensures
        no_script_sources(rewrite(ev, 0, link_step(ev))->0),
{
    let step = link_step(ev);
    assert forall|j: int| 0 <= j < ev.len() implies !(#[trigger] step(j) is Subtree) by {}
    lemma_rewrite_in_place(ev, 0, step);
    let out = rewrite(ev, 0, step)->0;
    reveal_strlit("script");
    reveal_strlit("h1");
    reveal_strlit("h2");
    reveal_strlit("h3");
    reveal_strlit("h4");
    reveal_strlit("h5");
    reveal_strlit("h6");
    reveal_strlit("h7");
    assert forall|j: int| 0 <= j < out.len() implies script_src(#[trigger] out[j]) is None by {
        assert(out[j - 0] == step_result(ev, step, j));
        assert(script_src(ev[j]) is None);
        if let EventView::Start(NodeView::Element(ns, name, attrs)) = ev[j] {
            if is_heading(ev[j]) {
                assert(name.len() == 2);
                assert(name != "script"@);
            }
        }
    }
}

/// Whether the scripts pass succeeds on the document: every script element with
/// a `src` that the pass reaches names a given script that swc compiles.
pub fn scripts_compile(doc: &Vec<HtmlEvent>, scripts: &Vec<ScriptFile>) -> (b: bool)
    ensures
        b == (rewrite(
            events_view(doc@),
            0,
            script_step(events_view(doc@), scripts_view(scripts@), Seq::empty()),
        ) is Some),
{
    let ghost v = events_view(doc@);
    let ghost step = script_step(v, scripts_view(scripts@), Seq::<u64>::empty());
    let mut i: usize = 0;
    while i < doc.len()
        invariant
            v == events_view(doc@),
            step == script_step(v, scripts_view(scripts@), Seq::<u64>::empty()),
            i <= doc.len(),
            (rewrite(v, 0, step) is Some) == (rewrite(v, i as int, step) is Some),
        decreases doc.len() - i,
    {
        if let Some(src) = script_src_of(&doc[i]) {
            match find_script_index(scripts, &src) {
                None => {
                    return false;
                },
                Some(k) => {
                    let script = &scripts[k];
                    match swc_compile(script.file_name.as_str(), script.source.as_str()) {
                        None => {
                            return false;
                        },
                        Some(_) => {
                            i = end_index(doc, i);
                            continue ;
                        },
                    }
                },
            }
        }
        i += 1;
    }
    true
}

/// The attributes hold an `id` in no namespace with value `v`.
pub open spec fn has_id(attrs: Seq<AttrView>, v: Seq<char>) -> bool {
    exists|k: int|
        0 <= k < attrs.len() && (#[trigger] attrs[k]).ns == Seq::<char>::empty() && attrs[k].name
            == "id"@ && attrs[k].value == v
}

/// An element named `h1` to `h7`.
pub open spec fn is_heading_tag(name: Seq<char>) -> bool {
    name == "h1"@ || name == "h2"@ || name == "h3"@ || name == "h4"@ || name == "h5"@ || name
        == "h6"@ || name == "h7"@
}

/// After the anchors pass, every element `h1` to `h7` whose first child is the
/// text `t` stands at the same place with the same name and namespace, and
/// carries an `id` attribute (in no namespace) whose value is the anchor of `t`:
/// the anchor that a table-of-contents link to `t` points to.
pub proof fn lemma_links_anchor_every_heading(
    ev: Seq<EventView>,
    j: int,
    ns: Seq<char>,
    name: Seq<char>,
    attrs: Seq<AttrView>,
    t: Seq<char>,
)
    requires
        rewrite(ev, 0, link_step(ev)) is Some,
        0 <= j && j + 1 < ev.len(),
        ev[j] == EventView::Start(NodeView::Element(ns, name, attrs)),
        is_heading_tag(name),
        ev[j + 1] == EventView::Start(NodeView::Text(t)),
    ensures
        rewrite(ev, 0, link_step(ev))->0.len() == ev.len(),
        rewrite(ev, 0, link_step(ev))->0[j] matches EventView::Start(NodeView::Element(n2, m2, a2))
            && n2 == ns && m2 == name && has_id(a2, slug_seq(t)),
{
    let step = link_step(ev);
    assert forall|i: int| 0 <= i < ev.len() implies !(#[trigger] step(i) is Subtree) by {}
    lemma_rewrite_in_place(ev, 0, step);
    assert(is_heading(ev[j]));
    assert(first_text(ev, j) == Some(t));
    let out = rewrite(ev, 0, step)->0;
    assert(out[j - 0] == step_result(ev, step, j));
    let na = set_id(attrs, slug_seq(t));
    assert(out[j] == EventView::Start(NodeView::Element(ns, name, na)));
    lemma_set_id_holds(attrs, slug_seq(t));
    let k = choose|k: int|
        0 <= k < na.len() && is_id_attr(#[trigger] na[k]) && na[k].value == slug_seq(t);
    assert(na[k].ns == Seq::<char>::empty() && na[k].name == "id"@);
    assert(has_id(na, slug_seq(t)));
    assert(rewrite(ev, 0, link_step(ev))->0[j] == EventView::Start(NodeView::Element(ns, name, na)));
}

/// A rewrite that keeps every step of `a..i` starts with those steps as they are.
pub proof fn lemma_rewrite_keeps_prefix(
    ev: Seq<EventView>,
    a: int,
    i: int,
    step: spec_fn(int) -> Step,
)
    requires
        0 <= a <= i <= ev.len(),
        forall|j: int| a <= j < i ==> #[trigger] step(j) == Step::Keep,
    ensures
        rewrite(ev, a, step) == prepend(ev.subrange(a, i), rewrite(ev, i, step)),
    decreases i - a,
{
    if a == i {
        if let Some(x) = rewrite(ev, i, step) {
            assert(ev.subrange(a, i) + x =~= x);
        }
    } else {
        lemma_rewrite_keeps_prefix(ev, a + 1, i, step);
        assert(step(a) == Step::Keep);
        lemma_prepend_twice(seq![ev[a]], ev.subrange(a + 1, i), rewrite(ev, i, step));
        assert(seq![ev[a]] + ev.subrange(a + 1, i) =~= ev.subrange(a, i));
    }
}

/// From any point of the walk, the display-math pass keeps every step up to the
/// next `pre` element, and replaces that element, with its descendants, by the
/// fragment parsed from `<span code-block>$$t$$</span>` whenever its first child
/// has the text `t` as its first child (whatever that child's name and
/// attributes); the pass then goes on after the element's descendants.
pub proof fn lemma_pre_pass_next_pre(
    ev: Seq<EventView>,
    a: int,
    i: int,
    child: NodeView,
    t: Seq<char>,
)
    requires
        0 <= a <= i && i + 2 < ev.len(),
        is_element(ev[i], "pre"@),
        forall|j: int| a <= j < i ==> !is_element(#[trigger] ev[j], "pre"@),
        ev[i + 1] == EventView::Start(child),
        ev[i + 2] == EventView::Start(NodeView::Text(t)),
    ensures
        rewrite(ev, a, pre_step(ev)) == prepend(
            ev.subrange(a, i) + html_fragment("<span code-block>$$"@ + t + "$$</span>"@),
            rewrite(ev, end_of(ev, i), pre_step(ev)),
        ),
{
    let step = pre_step(ev);
    assert forall|j: int| a <= j < i implies #[trigger] step(j) == Step::Keep by {
        assert(!is_element(ev[j], "pre"@));
    }
    lemma_rewrite_keeps_prefix(ev, a, i, step);
    assert(inner_text(ev, i) == Some(t));
    assert(step(i) == Step::Subtree(html_fragment(code_block_seq(t))));
    lemma_prepend_twice(
        ev.subrange(a, i),
        html_fragment(code_block_seq(t)),
        rewrite(ev, end_of(ev, i), step),
    );
}

/// From a point after which no `pre` element opens, the display-math pass keeps
/// the rest of the walk as it is.
pub proof fn lemma_pre_pass_without_pre(ev: Seq<EventView>, a: int)
    requires
        0 <= a <= ev.len(),
        forall|j: int| a <= j < ev.len() ==> !is_element(#[trigger] ev[j], "pre"@),
    ensures
        rewrite(ev, a, pre_step(ev)) == Some(ev.subrange(a, ev.len() as int)),
{
    let step = pre_step(ev);
    assert forall|j: int| a <= j < ev.len() implies #[trigger] step(j) == Step::Keep by {
        assert(!is_element(ev[j], "pre"@));
    }
    lemma_rewrite_keeps_prefix(ev, a, ev.len() as int, step);
    assert(ev.subrange(a, ev.len() as int) + Seq::<EventView>::empty() =~= ev.subrange(
        a,
        ev.len() as int,
    ));
}

/// The anchors pass changes no step other than those opening an element `h1` to
/// `h7`.
pub proof fn lemma_links_change_only_headings(ev: Seq<EventView>, j: int)
    requires
        rewrite(ev, 0, link_step(ev)) is Some,
        0 <= j < ev.len(),
        !(ev[j] matches EventView::Start(NodeView::Element(_, name, _)) && is_heading_tag(name)),
    ensures
        rewrite(ev, 0, link_step(ev))->0.len() == ev.len(),
        rewrite(ev, 0, link_step(ev))->0[j] == ev[j],
{
    let step = link_step(ev);
    assert forall|i: int| 0 <= i < ev.len() implies !(#[trigger] step(i) is Subtree) by {}
    lemma_rewrite_in_place(ev, 0, step);
    assert(!is_heading(ev[j]));
    assert(rewrite(ev, 0, step)->0[j - 0] == step_result(ev, step, j));
}

} // verus!
