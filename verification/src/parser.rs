//! The parser: one loop over the text, with the arrays and objects that are
//! still open held in a stack of its own.

use crate::bounds::{lemma_member_key_bounds, lemma_value_bounds};
use crate::error::{Error, Failure, Fault};
use crate::grammar::{document, element, elements, fail, member, members, value};
use crate::json::json_document;
use crate::laws::lemma_json_is_json5;
use crate::lexer::{
    fault_at, gap, is_digit, member_key, number, skip_trivia, starts_with, string_rest,
};
use crate::text::to_chars;
use crate::value::{
    entries_view, entries_wf, has_key, lemma_array_view, lemma_entries_view_push,
    lemma_entries_view_replace, lemma_object_view, lemma_values_view_push, values_view, values_wf,
    Value, ValueView,
};
use vstd::prelude::*;

verus! {

/// An array or object that the parser has entered and not yet left.
enum Frame {
    Array { items: Vec<Value> },
    /// `key` is the key of the member whose value is being read.
    Object { entries: Vec<(String, Value)>, key: String },
}

/// The mathematical content of a `Frame`.
enum FrameView {
    Array { items: Seq<ValueView> },
    Object { entries: Map<Seq<char>, ValueView>, key: Seq<char> },
}

impl Frame {
    /// The content of the frame.
    spec fn view(&self) -> FrameView {
        match self {
            Frame::Array { items } => FrameView::Array { items: values_view(items@) },
            Frame::Object { entries, key } => FrameView::Object {
                entries: entries_view(entries@),
                key: key@,
            },
        }
    }
}

impl Frame {
    /// The frame holds no key twice, nor a value that does.
    spec fn wf(&self) -> bool {
        match self {
            Frame::Array { items } => values_wf(items@),
            Frame::Object { entries, key } => entries_wf(entries@),
        }
    }
}

/// What the parser does next.
enum Step {
    /// Read the value that starts at the position.
    Value,
    /// Hand the value that ended at the position to what encloses it.
    Done(Value),
    /// Read on in the innermost open array or object; `first` says that it
    /// has no member yet.
    Resume { first: bool },
    /// Return the value of the whole text.
    Complete(Value),
}

/// The contents of the frames of `stack`, the outermost first.
spec fn frames_view(stack: Seq<Frame>) -> Seq<FrameView> {
    Seq::new(stack.len(), |i: int| stack[i]@)
}

/// No frame of `stack` holds a key twice, nor a value that does.
spec fn frames_wf(stack: Seq<Frame>) -> bool {
    forall|i: int| 0 <= i < stack.len() ==> (#[trigger] stack[i]).wf()
}

/// What the text holds when its outermost value is `root` and ends at `i`.
spec fn finish(s: Seq<char>, root: ValueView, i: int) -> Result<ValueView, Failure> {
    match crate::grammar::skip_trivia(s, i) {
        Err(failure) => Err(failure),
        Ok(end) => {
            if end < s.len() {
                fail(Fault::TrailingCharacters, end)
            } else {
                Ok(root)
            }
        },
    }
}

/// The array or object of `frame`, read on from `i`.
spec fn resume(s: Seq<char>, frame: FrameView, i: int, first: bool) -> Result<
    (ValueView, int),
    Failure,
> {
    match frame {
        FrameView::Array { items } => elements(s, i, items, first),
        FrameView::Object { entries, key } => members(s, i, entries, first),
    }
}

/// `frame` with the member `item`.
spec fn absorb(frame: FrameView, item: ValueView) -> FrameView {
    match frame {
        FrameView::Array { items } => FrameView::Array { items: items.push(item) },
        FrameView::Object { entries, key } => FrameView::Object {
            entries: entries.insert(key, item),
            key,
        },
    }
}

/// What the text holds when the value `item` ends at `i` inside the open
/// arrays and objects `stack`, the outermost first.
spec fn after_value(s: Seq<char>, stack: Seq<FrameView>, item: ValueView, i: int) -> Result<
    ValueView,
    Failure,
>
    decreases stack.len(), 0nat,
{
    if stack.len() == 0 {
        finish(s, item, i)
    } else {
        after_frame(s, stack.drop_last(), resume(s, absorb(stack.last(), item), i, false))
    }
}

/// What the text holds when a value inside the open arrays and objects
/// `stack` turns out as `inner`.
spec fn after_frame(
    s: Seq<char>,
    stack: Seq<FrameView>,
    inner: Result<(ValueView, int), Failure>,
) -> Result<ValueView, Failure>
    decreases stack.len(), 1nat,
{
    match inner {
        Err(failure) => Err(failure),
        Ok((item, next)) => after_value(s, stack, item, next),
    }
}

/// The state of the parser agrees with the grammar: what is left to do gives
/// what the whole text holds.
spec fn on_track(s: Seq<char>, stack: Seq<Frame>, step: Step, i: int) -> bool {
    let frames = frames_view(stack);
    match step {
        Step::Value => document(s) == after_frame(s, frames, value(s, i)),
        Step::Done(item) => item.wf() && document(s) == after_value(s, frames, item@, i),
        Step::Resume { first } => stack.len() > 0 && document(s) == after_frame(
            s,
            frames.drop_last(),
            resume(s, frames.last(), i, first),
        ),
        Step::Complete(root) => root.wf() && stack.len() == 0 && document(s) == Ok::<
            ValueView,
            Failure,
        >(root@),
    }
}

/// How far a step is from reading on.
spec fn rank(step: Step) -> nat {
    match step {
        Step::Value => 0,
        Step::Done(_) => 2,
        Step::Resume { .. } => 1,
        Step::Complete(_) => 0,
    }
}

/// The content of a stack is the contents of its frames; pushing a well
/// formed frame keeps the stack well formed.
proof fn lemma_frames_push(stack: Seq<Frame>, frame: Frame)
    ensures
        frames_view(stack.push(frame)) == frames_view(stack).push(frame@),
        frames_view(stack.push(frame)).drop_last() == frames_view(stack),
        frames_wf(stack) && frame.wf() ==> frames_wf(stack.push(frame)),
{
    assert(frames_view(stack.push(frame)) =~= frames_view(stack).push(frame@));
    assert(frames_view(stack).push(frame@).drop_last() =~= frames_view(stack));
    if frames_wf(stack) && frame.wf() {
        assert forall|i: int| 0 <= i < stack.push(frame).len() implies (#[trigger] stack.push(
            frame,
        )[i]).wf() by {
            if i < stack.len() {
                assert(stack.push(frame)[i] == stack[i]);
            }
        }
    }
}

/// The content of a stack without its last frame is its content without the
/// last; the frames of a well formed stack are well formed.
proof fn lemma_frames_pop(stack: Seq<Frame>)
    requires
        stack.len() > 0,
    ensures
        frames_view(stack.drop_last()) == frames_view(stack).drop_last(),
        frames_view(stack).last() == stack.last()@,
        frames_wf(stack) ==> frames_wf(stack.drop_last()) && stack.last().wf(),
{
    assert(frames_view(stack.drop_last()) =~= frames_view(stack).drop_last());
    if frames_wf(stack) {
        assert forall|i: int| 0 <= i < stack.drop_last().len() implies (
        #[trigger] stack.drop_last()[i]).wf() by {
            assert(stack.drop_last()[i] == stack[i]);
        }
        assert(stack[stack.len() - 1].wf());
    }
}

/// Puts the member `key`: `item` into `entries`, in the place of the member
/// with that key where there is one.
fn insert_entry(entries: &mut Vec<(String, Value)>, key: String, item: Value)
    requires
        entries_wf(old(entries)@),
        item.wf(),
    ensures
        entries_wf(final(entries)@),
        entries_view(final(entries)@) == entries_view(old(entries)@).insert(key@, item@),
{
    let mut k: usize = 0;
    while k < entries.len()
        invariant
            k <= entries.len(),
            *entries == *old(entries),
            entries_wf(entries@),
            item.wf(),
            forall|j: int| 0 <= j < k ==> (#[trigger] entries@[j]).0@ != key@,
        decreases entries.len() - k,
    {
        if entries[k].0 == key {
            proof {
                lemma_entries_view_replace(entries@, k as int, key, item);
            }
            let ghost before = entries@;
            entries.push((key, item));
            let (_, replaced) = entries.swap_remove(k);
            assert(entries@ =~= before.update(k as int, (key, item)));
            replaced.dispose();
            return ;
        }
        k += 1;
    }
    proof {
        if has_key(entries@, key@) {
            let j = crate::value::key_index(entries@, key@);
            assert(entries@[j].0@ != key@);
        }
        lemma_entries_view_push(entries@, key, item);
    }
    entries.push((key, item));
}

/// Reading the next element of an array is reading a value inside the
/// array.
proof fn lemma_enter_element(s: Seq<char>, rest: Seq<FrameView>, items: Seq<ValueView>, i: int)
    requires
        0 <= i <= s.len(),
    ensures
        after_frame(s, rest, element(s, i, items)) == after_frame(
            s,
            rest.push(FrameView::Array { items }),
            value(s, i),
        ),
{
    lemma_value_bounds(s, i);
    let stack = rest.push(FrameView::Array { items });
    assert(stack.drop_last() =~= rest);
    match value(s, i) {
        Ok((item, next)) => {
            assert(after_frame(s, stack, value(s, i)) == after_value(s, stack, item, next));
            assert(absorb(stack.last(), item) == FrameView::Array { items: items.push(item) });
        },
        Err(_) => {},
    }
}

/// Reading the next member of an object is reading a value inside the
/// object, after the key.
proof fn lemma_enter_member(
    s: Seq<char>,
    rest: Seq<FrameView>,
    entries: Map<Seq<char>, ValueView>,
    i: int,
    name: Seq<char>,
    start: int,
)
    requires
        0 <= i <= s.len(),
        crate::grammar::member_key(s, i) == Ok::<(Seq<char>, int), Failure>((name, start)),
    ensures
        after_frame(s, rest, member(s, i, entries)) == after_frame(
            s,
            rest.push(FrameView::Object { entries, key: name }),
            value(s, start),
        ),
{
    lemma_member_key_bounds(s, i);
    lemma_value_bounds(s, start);
    let stack = rest.push(FrameView::Object { entries, key: name });
    assert(stack.drop_last() =~= rest);
    match value(s, start) {
        Ok((item, next)) => {
            assert(after_frame(s, stack, value(s, start)) == after_value(s, stack, item, next));
            assert(absorb(stack.last(), item) == FrameView::Object {
                entries: entries.insert(name, item),
                key: name,
            });
        },
        Err(_) => {},
    }
}

/// Whether a number may start with `c`.
fn starts_number(c: char) -> (r: bool)
    ensures
        r == crate::grammar::starts_number(c),
{
    is_digit(c) || c == '+' || c == '-' || c == '.' || c == 'I' || c == 'N'
}

/// The value `item` where `s` holds `word` at `i`.
fn keyword(s: &[char], i: usize, word: &[char], item: Value) -> (r: Result<(Step, usize), Error>)
    requires
        i < s.len(),
        word@.len() > 0,
        item.wf(),
    ensures
        match crate::grammar::keyword(s@, i as int, word@, item@) {
            Ok((found, next)) => r matches Ok((Step::Done(v), n)) && v == item && found == item@
                && n == next && i < n <= s.len(),
            Err(failure) => r matches Err(e) && e@ == failure,
        },
{
    if starts_with(s, i, word) {
        Ok((Step::Done(item), i + word.len()))
    } else {
        Err(fault_at(Fault::InvalidLiteral, i))
    }
}

/// Reads the value that starts at `i`: a whole value that is neither array
/// nor object, or the opening bracket of one that is.
fn begin_value(s: &[char], i: usize, stack: &mut Vec<Frame>) -> (r: Result<(Step, usize), Error>)
    requires
        i <= s.len(),
        frames_wf(old(stack)@),
        on_track(s@, old(stack)@, Step::Value, i as int),
    ensures
        match r {
            Ok((next, j)) => frames_wf(final(stack)@) && on_track(s@, final(stack)@, next, j as int)
                && i < j <= s.len(),
            Err(e) => document(s@) == Err::<ValueView, Failure>(e@),
        },
{
    if i >= s.len() {
        return Err(fault_at(Fault::MissingValue, s.len()));
    }
    let c = s[i];
    let scalar = if c == 'n' {
        let word = ['n', 'u', 'l', 'l'];
        assert(word@ =~= seq!['n', 'u', 'l', 'l']);
        keyword(s, i, &word, Value::Null)
    } else if c == 't' {
        let word = ['t', 'r', 'u', 'e'];
        assert(word@ =~= seq!['t', 'r', 'u', 'e']);
        keyword(s, i, &word, Value::Bool(true))
    } else if c == 'f' {
        let word = ['f', 'a', 'l', 's', 'e'];
        assert(word@ =~= seq!['f', 'a', 'l', 's', 'e']);
        keyword(s, i, &word, Value::Bool(false))
    } else if c == '"' || c == '\'' {
        match string_rest(s, i + 1, c) {
            Ok((text, next)) => Ok((Step::Done(Value::String(text)), next)),
            Err(e) => Err(e),
        }
    } else if starts_number(c) {
        match number(s, i) {
            Ok((decimal, next)) => Ok((Step::Done(Value::Number(decimal)), next)),
            Err(e) => Err(e),
        }
    } else if c == '[' {
        let frame = Frame::Array { items: Vec::new() };
        proof {
            lemma_frames_push(stack@, frame);
            assert(values_view(Seq::<Value>::empty()) =~= Seq::<ValueView>::empty());
        }
        stack.push(frame);
        return Ok((Step::Resume { first: true }, i + 1));
    } else if c == '{' {
        let frame = Frame::Object { entries: Vec::new(), key: String::new() };
        proof {
            lemma_frames_push(stack@, frame);
            assert(entries_view(Seq::<(String, Value)>::empty()) =~= Map::<
                Seq<char>,
                ValueView,
            >::empty());
        }
        stack.push(frame);
        return Ok((Step::Resume { first: true }, i + 1));
    } else {
        return Err(fault_at(Fault::ExpectedValue, i));
    };
    scalar
}

/// Hands the value `item`, which ended at `i`, to the array or object that
/// encloses it, or ends the text where none does.
fn end_value(s: &[char], i: usize, item: Value, stack: &mut Vec<Frame>) -> (r: Result<
    (Step, usize),
    Error,
>)
    requires
        i <= s.len(),
        frames_wf(old(stack)@),
        on_track(s@, old(stack)@, Step::Done(item), i as int),
    ensures
        match r {
            Ok((next, j)) => frames_wf(final(stack)@) && on_track(s@, final(stack)@, next, j as int)
                && i <= j <= s.len() && rank(next) < 2,
            Err(e) => document(s@) == Err::<ValueView, Failure>(e@),
        },
{
    let ghost before = stack@;
    proof {
        if before.len() > 0 {
            lemma_frames_pop(before);
        }
    }
    match stack.pop() {
        None => {
            assert(frames_view(before) =~= Seq::<FrameView>::empty());
            match skip_trivia(s, i) {
                Err(e) => {
                    item.dispose();
                    Err(e)
                },
                Ok(end) => {
                    if end < s.len() {
                        item.dispose();
                        Err(fault_at(Fault::TrailingCharacters, end))
                    } else {
                        Ok((Step::Complete(item), end))
                    }
                },
            }
        },
        Some(Frame::Array { mut items }) => {
            proof {
                lemma_values_view_push(items@, item);
            }
            items.push(item);
            let frame = Frame::Array { items };
            proof {
                lemma_frames_push(stack@, frame);
            }
            stack.push(frame);
            Ok((Step::Resume { first: false }, i))
        },
        Some(Frame::Object { mut entries, key }) => {
            insert_entry(&mut entries, key, item);
            let frame = Frame::Object { entries, key: String::new() };
            proof {
                lemma_frames_push(stack@, frame);
            }
            stack.push(frame);
            Ok((Step::Resume { first: false }, i))
        },
    }
}

/// Whether the innermost open frame is an array.
fn in_array(stack: &Vec<Frame>) -> (r: bool)
    requires
        stack.len() > 0,
    ensures
        r == (stack@.last() is Array),
{
    match &stack[stack.len() - 1] {
        Frame::Array { .. } => true,
        Frame::Object { .. } => false,
    }
}

/// Takes the innermost open frame off the stack and gives it as the value
/// that it has become.
fn close_frame(stack: &mut Vec<Frame>) -> (item: Value)
    requires
        old(stack).len() > 0,
        frames_wf(old(stack)@),
    ensures
        final(stack)@ == old(stack)@.drop_last(),
        frames_wf(final(stack)@),
        item.wf(),
        match frames_view(old(stack)@).last() {
            FrameView::Array { items } => item@ == ValueView::Array(items),
            FrameView::Object { entries, key } => item@ == ValueView::Object(entries),
        },
{
    proof {
        lemma_frames_pop(stack@);
    }
    match stack.pop() {
        Some(Frame::Array { items }) => {
            proof {
                lemma_array_view(items);
            }
            Value::Array(items)
        },
        Some(Frame::Object { entries, key }) => {
            proof {
                lemma_object_view(entries);
            }
            Value::Object(entries)
        },
        None => Value::Null,
    }
}

/// Notes `name` as the key of the member that the innermost open frame, an
/// object, reads next.
fn set_key(stack: &mut Vec<Frame>, name: String)
    requires
        old(stack).len() > 0,
        old(stack)@.last() is Object,
        frames_wf(old(stack)@),
    ensures
        final(stack).len() == old(stack).len(),
        frames_wf(final(stack)@),
        frames_view(final(stack)@).drop_last() == frames_view(old(stack)@).drop_last(),
        frames_view(final(stack)@).last() == (FrameView::Object {
            entries: frames_view(old(stack)@).last()->Object_entries,
            key: name@,
        }),
{
    proof {
        lemma_frames_pop(stack@);
    }
    match stack.pop() {
        Some(Frame::Object { entries, key }) => {
            let frame = Frame::Object { entries, key: name };
            proof {
                lemma_frames_push(stack@, frame);
            }
            stack.push(frame);
        },
        Some(Frame::Array { items }) => {
            stack.push(Frame::Array { items });
        },
        None => {},
    }
}

/// Reads on in the innermost open array or object: to its closing bracket,
/// or to the start of the value of its next member.
fn resume_frame(s: &[char], i: usize, first: bool, stack: &mut Vec<Frame>) -> (r: Result<
    (Step, usize),
    Error,
>)
    requires
        i <= s.len(),
        frames_wf(old(stack)@),
        on_track(s@, old(stack)@, Step::Resume { first }, i as int),
    ensures
        frames_wf(final(stack)@),
        match r {
            Ok((next, j)) => on_track(s@, final(stack)@, next, j as int) && i <= j <= s.len() && (
            rank(next) < 1 || i < j),
            Err(e) => document(s@) == Err::<ValueView, Failure>(e@),
        },
{
    let ghost frames = frames_view(stack@);
    let ghost rest = frames.drop_last();
    proof {
        lemma_frames_pop(stack@);
        assert(frames =~= rest.push(frames.last()));
    }
    if in_array(stack) {
        proof {
            crate::grammar::lemma_gap_bounds(s@, i as int, first, ']', Fault::UnterminatedArray);
        }
        match gap(s, i, first, ']', Fault::UnterminatedArray) {
            Err(e) => Err(e),
            Ok((closed, next)) => {
                if closed {
                    Ok((Step::Done(close_frame(stack)), next))
                } else {
                    proof {
                        lemma_enter_element(s@, rest, frames.last()->Array_items, next as int);
                    }
                    Ok((Step::Value, next))
                }
            },
        }
    } else {
        proof {
            crate::grammar::lemma_gap_bounds(s@, i as int, first, '}', Fault::UnterminatedObject);
        }
        match gap(s, i, first, '}', Fault::UnterminatedObject) {
            Err(e) => Err(e),
            Ok((closed, next)) => {
                if closed {
                    Ok((Step::Done(close_frame(stack)), next))
                } else {
                    match member_key(s, next) {
                        Err(e) => Err(e),
                        Ok((name, start)) => {
                            proof {
                                lemma_enter_member(
                                    s@,
                                    rest,
                                    frames.last()->Object_entries,
                                    next as int,
                                    name@,
                                    start as int,
                                );
                            }
                            set_key(stack, name);
                            proof {
                                let after = frames_view(stack@);
                                assert(after =~= after.drop_last().push(after.last()));
                            }
                            Ok((Step::Value, start))
                        },
                    }
                }
            },
        }
    }
}

/// Takes apart what the parser holds when it gives up.
fn release(stack: Vec<Frame>) {
    let mut stack = stack;
    while stack.len() > 0
        decreases stack.len(),
    {
        match stack.pop() {
            Some(Frame::Array { items }) => Value::Array(items).dispose(),
            Some(Frame::Object { entries, key }) => Value::Object(entries).dispose(),
            None => {},
        }
    }
}

/// Reads the text `s` step by step until its value is complete or a step
/// fails.
fn run(s: &[char]) -> (r: Result<Value, Error>)
    ensures
        match document(s@) {
            Ok(root) => r matches Ok(v) && v@ == root && v.wf(),
            Err(failure) => r matches Err(e) && e@ == failure,
        },
{
    let mut i = match skip_trivia(s, 0) {
        Ok(i) => i,
        Err(e) => {
            return Err(e);
        },
    };
    let mut stack: Vec<Frame> = Vec::new();
    let mut step = Step::Value;
    assert(frames_view(stack@) =~= Seq::<FrameView>::empty());
    loop
        invariant
            i <= s.len(),
            frames_wf(stack@),
            on_track(s@, stack@, step, i as int),
        decreases s.len() - i, rank(step),
    {
        let moved = match step {
            Step::Value => begin_value(s, i, &mut stack),
            Step::Done(item) => end_value(s, i, item, &mut stack),
            Step::Resume { first } => resume_frame(s, i, first, &mut stack),
            Step::Complete(root) => {
                return Ok(root);
            },
        };
        match moved {
            Ok((next, j)) => {
                step = next;
                i = j;
            },
            Err(e) => {
                release(stack);
                return Err(e);
            },
        }
    }
}

/// The value that the characters `s` hold as a JSON5 text: what `document`
/// says of them. Characters that are a JSON text hold what JSON says that
/// they hold.
pub fn parse_chars(s: &[char]) -> (r: Result<Value, Error>)
    ensures
        match document(s@) {
            Ok(root) => r matches Ok(v) && v@ == root && v.wf(),
            Err(failure) => r matches Err(e) && e@ == failure,
        },
        json_document(s@) matches Some(root) ==> r matches Ok(v) && v@ == root,
{
    proof {
        if json_document(s@) is Some {
            lemma_json_is_json5(s@);
        }
    }
    run(s)
}

/// The options of `parse`, by name. No name has a meaning yet, and names
/// without meaning are passed over.
#[derive(Debug, PartialEq, Eq)]
pub struct ParseConfig {
    pub options: Vec<(String, String)>,
}

impl Default for ParseConfig {
    fn default() -> (config: Self)
        ensures
            config.options@ == Seq::<(String, String)>::empty(),
    {
        ParseConfig { options: Vec::new() }
    }
}

/// The value that the JSON5 text `input` holds: what `document` says of its
/// characters, whatever `config` holds. An object comes with each key once.
/// A JSON text holds what JSON says that it holds.
pub fn parse(input: &str, config: ParseConfig) -> (r: Result<Value, Error>)
    ensures
        match document(input@) {
            Ok(root) => r matches Ok(v) && v@ == root && v.wf(),
            Err(failure) => r matches Err(e) && e@ == failure,
        },
        json_document(input@) matches Some(root) ==> r matches Ok(v) && v@ == root,
{
    let chars = to_chars(input);
    parse_chars(chars.as_slice())
}

} // verus!
