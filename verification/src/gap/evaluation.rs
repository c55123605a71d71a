//! Evaluating GAP source text and rendering objects.

use crate::error::GapError;
use crate::gap::{plain, roots_with, Gap, GapView};
use crate::handle::{GapRef, Obj};
use crate::kernel::{Call, Event, Kernel};
use crate::roots::GapValue;
use crate::session::{lemma_asked, lemma_silent, Session, SessionView};
use crate::text::{before_nul, cut_at_nul, text_of, utf8_lossy};
use vstd::prelude::*;

verus! {

/// What evaluating `cmd` comes to. The text goes to GAP's reader through an
/// `InputTextString`; of the first command's entry in what the reader gives back, the
/// first element tells whether it succeeded and the second is the value.
pub open spec fn evaluated(
    before: GapView,
    after: GapView,
    cmd: Seq<char>,
    result: Result<GapRef, GapError>,
) -> bool {
    let events = after.session.since(before.session);
    let constants = before.handles.constants;
    &&& after.handles == before.handles
    &&& after.session.spoke(before.session, events)
    &&& events.len() >= 5
    &&& forall|i: int| 0 <= i < events.len() ==> (#[trigger] events[i]).answer is Object
    &&& events[0].call == (Call::MakeString { text: cmd })
    &&& events[1].call == (Call::Operation1 {
        operation: before.handles.input_stream,
        arg: events[0].obj(),
    })
    &&& events[2].call == (Call::ReadAllCommands {
        stream: events[1].obj(),
        echo: constants.false_obj,
        capture: constants.false_obj,
        callback: constants.false_obj,
    })
    &&& events[3].call == (Call::ListElement { list: events[2].obj(), position: 1 })
    &&& events[4].call == (Call::ListElement { list: events[3].obj(), position: 1 })
    &&& if events[4].obj() == constants.true_obj {
        &&& events.len() == 6
        &&& events[5].call == (Call::ListElement { list: events[3].obj(), position: 2 })
        &&& result == Ok::<GapRef, GapError>(events[5].handle())
    } else {
        &&& events.len() == 5
        &&& result == Err::<GapRef, GapError>(GapError::EvaluationFailed)
    }
}

/// What rendering an object comes to: it is printed to the output stream, the text of
/// the string behind the stream is the result, as long as that string is now, and the
/// string is emptied.
pub open spec fn displayed(
    before: GapView,
    after: GapView,
    value: GapRef,
    text: Seq<char>,
) -> bool {
    let events = after.session.since(before.session);
    let string = before.handles.output_str_obj;
    &&& after.handles == before.handles
    &&& after.session.spoke(before.session, events)
    &&& events.len() == 4
    &&& events[0].call == (Call::Call2 {
        function: before.handles.print_fn,
        first: before.handles.output_stream_handle,
        second: value.obj,
    })
    &&& bytes_asked(events[1], events[2], string)
    &&& events[3].call == (Call::SetStringLength { string, length: 0 })
    &&& text == text_of(events[2].answer->Bytes_0)
}

/// Whether two calls ask for a string's length, and for its bytes by that length.
pub open spec fn bytes_asked(length: Event, bytes: Event, string: Obj) -> bool {
    &&& length.call == (Call::StringLength { string })
    &&& length.answer is Count
    &&& bytes.call == (Call::StringBytes { string, length: length.answer->Count_0 })
    &&& bytes.answer is Bytes
}

/// What reading a string comes to: its text ends before the first NUL.
pub open spec fn string_read(
    before: SessionView,
    after: SessionView,
    value: GapRef,
    text: Seq<char>,
) -> bool {
    let events = after.since(before);
    &&& after.spoke(before, events)
    &&& events.len() == 2
    &&& bytes_asked(events[0], events[1], value.obj)
    &&& text == text_of(before_nul(events[1].answer->Bytes_0))
}

impl<K: Kernel> Session<K> {
    /// The text of a GAP string, up to its first NUL.
    pub fn string_text(&mut self, value: GapRef) -> (text: String)
        ensures
            string_read(old(self)@, final(self)@, value, text@),
    {
        broadcast use lemma_asked;

        proof {
            lemma_silent(self@);
        }
        let length = self.string_length(value.obj);
        let bytes = cut_at_nul(self.string_bytes(value.obj, length));
        utf8_lossy(bytes.as_slice())
    }
}

impl<K: Kernel> Gap<K> {
    /// Evaluates GAP source text and returns a GC-rooted result.
    ///
    /// `cmd` is parsed by GAP's ordinary command reader through an
    /// `InputTextString`. The returned [`GapValue`] can safely survive later
    /// GAP calls. GAP receives the text as a C string, so it may not hold a NUL.
    pub fn eval(&mut self, cmd: &str) -> (result: Result<GapValue, GapError>)
        requires
            !cmd@.contains('\0'),
        ensures
            evaluated(
                old(self)@,
                final(self)@.with_roots(old(self)@.roots()),
                cmd@,
                plain(result),
            ),
            final(self)@.roots() == roots_with(old(self)@.roots(), result),
    {
        match self.eval_unrooted(cmd) {
            Ok(reference) => Ok(self.session.root(reference)),
            Err(e) => Err(e),
        }
    }

    /// Evaluates GAP source text and returns an unrooted result.
    ///
    /// The returned [`GapRef`] may become invalid after any GAP operation that
    /// allocates. Prefer [`Gap::eval`].
    pub fn eval_unrooted(&mut self, cmd: &str) -> (result: Result<GapRef, GapError>)
        requires
            !cmd@.contains('\0'),
        ensures
            evaluated(old(self)@, final(self)@, cmd@, result),
    {
        broadcast use lemma_asked;

        proof {
            lemma_silent(self.session@);
        }
        let no = self.handles.constants.false_obj;
        let text = self.session.make_string(cmd);
        let instream = self.session.operation_1(self.handles.input_stream, text);
        let all = self.session.read_all_commands(instream, no, no, no);
        let entry = self.session.list_element(all, 1);
        let success = self.session.list_element(entry, 1);
        if success == self.handles.constants.true_obj {
            let obj = self.session.list_element(entry, 2);
            Ok(GapRef { obj })
        } else {
            Err(GapError::EvaluationFailed)
        }
    }

    /// Deprecated alias for [`Gap::eval`].
    pub fn eval_rooted(&mut self, cmd: &str) -> (result: Result<GapValue, GapError>)
        requires
            !cmd@.contains('\0'),
        ensures
            evaluated(
                old(self)@,
                final(self)@.with_roots(old(self)@.roots()),
                cmd@,
                plain(result),
            ),
            final(self)@.roots() == roots_with(old(self)@.roots(), result),
    {
        self.eval(cmd)
    }

    /// Renders a GAP object with GAP's `PrintTo` and returns the resulting text.
    pub fn display(&mut self, value: &GapValue) -> (text: String)
        ensures
            displayed(old(self)@, final(self)@, value@, text@),
    {
        self.display_unrooted(value.as_unrooted())
    }

    /// Renders an unrooted GAP handle.
    ///
    /// The handle must remain valid for this call. Prefer [`Gap::display`].
    pub fn display_unrooted(&mut self, value: GapRef) -> (text: String)
        ensures
            displayed(old(self)@, final(self)@, value, text@),
    {
        broadcast use lemma_asked;

        proof {
            lemma_silent(self.session@);
        }
        self.session.call_2(self.handles.print_fn, self.handles.output_stream_handle, value.obj);
        let length = self.session.string_length(self.handles.output_str_obj);
        let bytes = self.session.string_bytes(self.handles.output_str_obj, length);
        let copy = utf8_lossy(bytes.as_slice());
        self.session.set_string_length(self.handles.output_str_obj, 0);
        copy
    }

    /// Deprecated alias for [`Gap::display_unrooted`].
    pub fn elem_string(&mut self, value: &GapRef) -> (text: String)
        ensures
            displayed(old(self)@, final(self)@, *value, text@),
    {
        self.display_unrooted(*value)
    }

    /// The text of a GAP string, up to its first NUL.
    pub fn string_text(&mut self, value: GapRef) -> (text: String)
        ensures
            final(self)@.handles == old(self)@.handles,
            string_read(old(self)@.session, final(self)@.session, value, text@),
    {
        self.session.string_text(value)
    }
}

}
