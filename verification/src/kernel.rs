//! The calls into libgap, and the record of calls that contracts speak of.

use crate::handle::{GapRef, Obj};
use crate::roots::RootTable;
use vstd::multiset::Multiset;
use vstd::prelude::*;

verus! {

/// GAP's distinguished objects, which are fixed once libgap is initialized.
#[derive(Clone, Copy, Debug, PartialEq, Eq, Structural)]
pub struct Constants {
    /// `GAP_True`.
    pub true_obj: Obj,
    /// `GAP_False`.
    pub false_obj: Obj,
    /// `GAP_Fail`.
    pub fail_obj: Obj,
    /// The kernel's own `Fail`.
    pub kernel_fail_obj: Obj,
}

/// What a call into libgap gives back.
#[derive(Debug)]
pub struct Reply<T> {
    /// The value that the call returned.
    pub value: T,
    /// Whether libgap ran its error callback during the call.
    pub raised: bool,
}

/// The calls into libgap.
///
/// Nothing is supposed of what libgap answers: asked the same twice, it may answer
/// differently. A value stands for the one libgap of a process with all that it has been
/// told, so every call takes it by exclusive reference and leaves it changed. Each call
/// is handed the root table, so that a garbage collection during the call can mark what
/// [`RootTable::mark_bag`] lists.
pub trait Kernel: Sized {
    /// `SYSGAP_Initialize`. Starts libgap with the given arguments and with signal handling.
    fn initialize(&mut self, roots: &RootTable, args: &Vec<String>) -> Reply<Constants>;

    /// `ValGVar`. The value of the global variable `name`, by its number.
    fn variable_value(&mut self, roots: &RootTable, name: &str) -> Reply<Obj>;

    /// `GAP_ValueGlobalVariable`. The value of the global variable `name`.
    fn global_variable(&mut self, roots: &RootTable, name: &str) -> Reply<Obj>;

    /// `NEW_STRING`. A new mutable string of the given length.
    fn new_string(&mut self, roots: &RootTable, length: usize) -> Reply<Obj>;

    /// `MakeString`. A new string with the given text.
    fn make_string(&mut self, roots: &RootTable, text: &str) -> Reply<Obj>;

    /// `DoOperation1Args`. Applies an operation to one argument.
    fn operation_1(&mut self, roots: &RootTable, operation: Obj, arg: Obj) -> Reply<Obj>;

    /// `DoOperation2Args`. Applies an operation to two arguments.
    fn operation_2(
        &mut self,
        roots: &RootTable,
        operation: Obj,
        first: Obj,
        second: Obj,
    ) -> Reply<Obj>;

    /// `SYSGAP_OpenOutputStream`. Opens an output stream; the answer is 1 on success.
    fn open_output_stream(&mut self, roots: &RootTable, stream: Obj) -> Reply<u64>;

    /// `SYSGAP_CloseOutput`. Closes the output stream.
    fn close_output(&mut self, roots: &RootTable) -> Reply<u64>;

    /// `READ_ALL_COMMANDS`. Reads and evaluates the commands in a stream; the answer is a
    /// list with one entry for each.
    fn read_all_commands(
        &mut self,
        roots: &RootTable,
        stream: Obj,
        echo: Obj,
        capture: Obj,
        callback: Obj,
    ) -> Reply<Obj>;

    /// `GAP_ElmList`. The element of a list at a position, counted from one.
    fn list_element(&mut self, roots: &RootTable, list: Obj, position: usize) -> Reply<Obj>;

    /// `LEN_LIST`. The length of a list.
    fn list_length(&mut self, roots: &RootTable, list: Obj) -> Reply<i64>;

    /// `SYSGAP_CallFunc2Args`. Calls a function with two arguments.
    fn call_2(&mut self, roots: &RootTable, function: Obj, first: Obj, second: Obj) -> Reply<Obj>;

    /// `GAP_CallFuncArray`. Calls a function with the given arguments.
    fn call_array(&mut self, roots: &RootTable, function: Obj, args: &Vec<Obj>) -> Reply<Obj>;

    /// `GET_LEN_STRING`. The length of a string.
    fn string_length(&mut self, roots: &RootTable, string: Obj) -> Reply<u64>;

    /// `GAP_CSTR_STRING`. The first `length` bytes of a string.
    fn string_bytes(&mut self, roots: &RootTable, string: Obj, length: u64) -> Reply<Vec<u8>>;

    /// `SET_LEN_STRING`. Sets the length of a string.
    fn set_string_length(&mut self, roots: &RootTable, string: Obj, length: usize) -> Reply<()>;

    /// `INTOBJ_INT`. The immediate integer object for a number.
    fn object_of_integer(&mut self, roots: &RootTable, value: i64) -> Reply<Obj>;

    /// `Int_ObjInt`. The number that an integer object stands for.
    fn integer_of_object(&mut self, roots: &RootTable, object: Obj) -> Reply<i64>;

    /// `NEW_PLIST`. A new plain list with room for the given number of elements.
    fn new_plist(&mut self, roots: &RootTable, capacity: usize) -> Reply<Obj>;

    /// `SET_LEN_PLIST`. Sets the length of a plain list.
    fn set_plist_length(&mut self, roots: &RootTable, list: Obj, length: usize) -> Reply<()>;

    /// `SET_ELM_PLIST`. Sets the element of a plain list at a position, counted from one.
    fn set_plist_element(
        &mut self,
        roots: &RootTable,
        list: Obj,
        position: usize,
        element: Obj,
    ) -> Reply<()>;

    /// `CHANGED_BAG`. Tells the garbage collector that a list was written to.
    fn changed_bag(&mut self, roots: &RootTable, list: Obj) -> Reply<()>;
}

/// A call into libgap with its arguments.
pub enum Call {
    Initialize { argv: Seq<Seq<char>> },
    VariableValue { name: Seq<char> },
    GlobalVariable { name: Seq<char> },
    NewString { length: usize },
    MakeString { text: Seq<char> },
    Operation1 { operation: Obj, arg: Obj },
    Operation2 { operation: Obj, first: Obj, second: Obj },
    OpenOutputStream { stream: Obj },
    CloseOutput,
    ReadAllCommands { stream: Obj, echo: Obj, capture: Obj, callback: Obj },
    ListElement { list: Obj, position: usize },
    ListLength { list: Obj },
    Call2 { function: Obj, first: Obj, second: Obj },
    CallArray { function: Obj, args: Seq<Obj> },
    StringLength { string: Obj },
    StringBytes { string: Obj, length: u64 },
    SetStringLength { string: Obj, length: usize },
    ObjectOfInteger { value: i64 },
    IntegerOfObject { object: Obj },
    NewPlist { capacity: usize },
    SetPlistLength { list: Obj, length: usize },
    SetPlistElement { list: Obj, position: usize, element: Obj },
    ChangedBag { list: Obj },
}

/// What a call into libgap returned.
pub enum Answer {
    Nothing,
    Object(Obj),
    Integer(i64),
    Count(u64),
    Bytes(Seq<u8>),
    Constants(Constants),
}

/// One call into libgap: what was asked, what came back, whether the error callback
/// ran, and which objects were rooted meanwhile.
pub struct Event {
    pub call: Call,
    pub answer: Answer,
    pub raised: bool,
    pub roots: Multiset<GapRef>,
}

impl Event {
    /// The object that the call returned.
    pub open spec fn obj(self) -> Obj {
        self.answer->Object_0
    }

    /// The handle of the object that the call returned.
    pub open spec fn handle(self) -> GapRef {
        GapRef { obj: self.obj() }
    }

    /// The number that the call returned.
    pub open spec fn integer(self) -> i64 {
        self.answer->Integer_0
    }
}

/// Whether the error callback ran during one of the calls.
pub open spec fn any_raised(events: Seq<Event>) -> bool {
    exists|i: int| 0 <= i < events.len() && (#[trigger] events[i]).raised
}

}
