//! The interpreter, exercised on a small kernel with a garbage collector that frees
//! whatever is neither rooted nor in use.

use gap_sys::error::{Activity, GapError};
use gap_sys::gap::{initialization_checked, stream_checked, Gap, Host};
use gap_sys::global::{eval, gap_eval, global, init_global, with_gap, GapBuilder, GlobalGap};
use gap_sys::handle::{GapRef, Obj};
use gap_sys::kernel::{Constants, Kernel, Reply};
use gap_sys::path::PosixPath;
use gap_sys::roots::{GapValue, RootTable};
use gap_sys::session::Session;
use gap_sys::tree::{Directory, Tree};
use std::cell::RefCell;
use std::collections::BTreeMap;
use std::rc::Rc;

/// A GAP object.
#[derive(Clone, Debug, PartialEq)]
enum Value {
    Boolean(bool),
    Fail,
    Text(Vec<u8>),
    /// A string whose bytes stay where they are when its length is set.
    Buffer { bytes: Vec<u8>, length: usize },
    List(Vec<Obj>),
    Function(&'static str),
    InputStream(Obj),
    OutputStream(Obj),
    Permutation(Vec<i64>),
    Printed(&'static str),
}

/// What a kernel knows that understands what the tests say to it.
#[derive(Default)]
struct Memory {
    objects: BTreeMap<Obj, Value>,
    next: Obj,
    globals: BTreeMap<&'static str, Obj>,
    packages_at: Vec<String>,
    root_paths: Vec<String>,
    started_with: Vec<Vec<String>>,
    fail_initialize: bool,
    refuse_stream: bool,
    raise_on_print: bool,
}

const TRUE: Obj = 8;
const FALSE: Obj = 16;
const FAIL: Obj = 24;
const KERNEL_FAIL: Obj = 32;

fn quiet<T>(value: T) -> Reply<T> {
    Reply { value, raised: false }
}

fn raised(value: Obj) -> Reply<Obj> {
    Reply { value, raised: true }
}

/// Integers are kept in the object word itself.
fn immediate(value: i64) -> Obj {
    ((value as usize) << 2) | 1
}

impl Memory {
    fn allocate(&mut self, value: Value) -> Obj {
        self.next += 8;
        self.objects.insert(self.next, value);
        self.next
    }

    fn value(&self, object: Obj) -> &Value {
        self.objects
            .get(&object)
            .unwrap_or_else(|| panic!("object {object} was freed"))
    }

    /// Frees what is not reachable from the roots, from the globals or from `used`.
    fn collect(&mut self, roots: &RootTable, used: &[Obj]) {
        let mut reached: Vec<Obj> = Vec::new();
        let mut todo: Vec<Obj> = roots.mark_bag().iter().map(|root| root.obj).collect();
        todo.extend(self.globals.values().copied());
        todo.extend([TRUE, FALSE, FAIL, KERNEL_FAIL]);
        todo.extend(used.iter().copied());
        while let Some(object) = todo.pop() {
            if object % 8 != 0 || reached.contains(&object) {
                continue;
            }
            reached.push(object);
            match self.value(object) {
                Value::List(elements) => todo.extend(elements.iter().copied()),
                Value::InputStream(text) | Value::OutputStream(text) => todo.push(*text),
                _ => {}
            }
        }
        self.objects.retain(|object, _| reached.contains(object));
    }

    fn integers(&mut self, numbers: impl Iterator<Item = i64>) -> Obj {
        let elements = numbers.map(immediate).collect();
        self.allocate(Value::List(elements))
    }

    fn run(&mut self, command: &str) -> Option<Obj> {
        Some(match command {
            "42;" => immediate(42),
            "-7;" => immediate(-7),
            "true;" => TRUE,
            "false;" => FALSE,
            "fail;" => FAIL,
            "\"Hello from GAP\";" => self.allocate(Value::Text(b"Hello from GAP".to_vec())),
            "\"\\377\\n\";" => self.allocate(Value::Text(vec![b'a', 0xff, b'b'])),
            "\"\";" => self.allocate(Value::Text(vec![])),
            "\"a\\000b\";" => self.allocate(Value::Text(b"a\0b".to_vec())),
            "[1, 2, 3];" => self.integers(1..=3),
            "List([1..100], x -> x^2);" => self.integers((1..=100).map(|x| x * x)),
            "[[1, 2, 3], [4, 5, 6]];;" => {
                let rows = vec![self.integers(1..=3), self.integers(4..=6)];
                self.allocate(Value::List(rows))
            }
            "Group((1,2,3),(1,2));" => {
                self.allocate(Value::Printed("Group( [ (1,2,3), (1,2) ] )"))
            }
            "LoadPackage(\"gapdoc\");" => {
                if self.root_paths.iter().any(|root| self.packages_at.contains(root)) {
                    TRUE
                } else {
                    FAIL
                }
            }
            "GAPInfo.RootPaths;" => {
                let mut roots = Vec::new();
                for root in self.root_paths.clone() {
                    roots.push(self.allocate(Value::Text(root.into_bytes())));
                }
                self.allocate(Value::List(roots))
            }
            _ => return None,
        })
    }

    fn print(&self, object: Obj) -> Vec<u8> {
        if object % 4 == 1 {
            return ((object as isize) >> 2).to_string().into_bytes();
        }
        match self.value(object) {
            Value::Boolean(true) => b"true".to_vec(),
            Value::Boolean(false) => b"false".to_vec(),
            Value::Fail => b"fail".to_vec(),
            Value::Text(bytes) => bytes.clone(),
            Value::Printed(text) => text.as_bytes().to_vec(),
            Value::List(elements) => {
                let mut text = b"[ ".to_vec();
                for (idx, element) in elements.iter().enumerate() {
                    if idx > 0 {
                        text.extend(b", ");
                    }
                    text.extend(self.print(*element));
                }
                text.extend(b" ]");
                text
            }
            other => panic!("cannot print {other:?}"),
        }
    }

    fn list(&self, object: Obj) -> &Vec<Obj> {
        match self.value(object) {
            Value::List(elements) => elements,
            other => panic!("{other:?} is no list"),
        }
    }
}

impl Memory {
    fn initialize(&mut self, _: &RootTable, args: &Vec<String>) -> Reply<Constants> {
        self.started_with.push(args.clone());
        self.root_paths = args[2]
            .split(';')
            .filter(|root| !root.is_empty())
            .map(|root| root.to_string())
            .collect();
        self.next = 64;
        self.objects.insert(TRUE, Value::Boolean(true));
        self.objects.insert(FALSE, Value::Boolean(false));
        self.objects.insert(FAIL, Value::Fail);
        self.objects.insert(KERNEL_FAIL, Value::Fail);
        for name in [
            "OutputTextString",
            "InputTextString",
            "PrintTo",
            "Length",
            "MappingPermListList",
            "OnPoints",
            "Error",
        ] {
            let function = self.allocate(Value::Function(name));
            self.globals.insert(name, function);
        }
        Reply {
            value: Constants {
                true_obj: TRUE,
                false_obj: FALSE,
                fail_obj: FAIL,
                kernel_fail_obj: KERNEL_FAIL,
            },
            raised: self.fail_initialize,
        }
    }

    fn variable_value(&mut self, _: &RootTable, name: &str) -> Reply<Obj> {
        quiet(self.globals[name])
    }

    fn global_variable(&mut self, _: &RootTable, name: &str) -> Reply<Obj> {
        match self.globals.get(name) {
            Some(object) => quiet(*object),
            None => raised(0),
        }
    }

    fn new_string(&mut self, _: &RootTable, length: usize) -> Reply<Obj> {
        let string = self.allocate(Value::Buffer { bytes: vec![0; length], length });
        self.globals.insert("the output string", string);
        quiet(string)
    }

    fn make_string(&mut self, _: &RootTable, text: &str) -> Reply<Obj> {
        quiet(self.allocate(Value::Text(text.as_bytes().to_vec())))
    }

    fn operation_1(&mut self, _: &RootTable, operation: Obj, arg: Obj) -> Reply<Obj> {
        assert_eq!(*self.value(operation), Value::Function("InputTextString"));
        quiet(self.allocate(Value::InputStream(arg)))
    }

    fn operation_2(&mut self, _: &RootTable, operation: Obj, first: Obj, second: Obj) -> Reply<Obj> {
        assert_eq!(*self.value(operation), Value::Function("OutputTextString"));
        assert_eq!(second, TRUE);
        let stream = self.allocate(Value::OutputStream(first));
        self.globals.insert("the output stream", stream);
        quiet(stream)
    }

    fn open_output_stream(&mut self, _: &RootTable, stream: Obj) -> Reply<u64> {
        assert_eq!(stream, self.globals["the output stream"]);
        quiet(if self.refuse_stream { 0 } else { 1 })
    }

    fn close_output(&mut self, _: &RootTable) -> Reply<u64> {
        quiet(1)
    }

    fn read_all_commands(
        &mut self,
        roots: &RootTable,
        stream: Obj,
        echo: Obj,
        capture: Obj,
        callback: Obj,
    ) -> Reply<Obj> {
        assert_eq!([echo, capture, callback], [FALSE, FALSE, FALSE]);
        self.collect(roots, &[stream]);
        let text = match self.value(stream) {
            Value::InputStream(text) => *text,
            other => panic!("{other:?} is no input stream"),
        };
        let command = String::from_utf8(self.print(text)).unwrap();
        let entry = match self.run(&command) {
            Some(value) => vec![TRUE, value],
            None => vec![FALSE],
        };
        let entry = self.allocate(Value::List(entry));
        quiet(self.allocate(Value::List(vec![entry])))
    }

    fn list_element(&mut self, _: &RootTable, list: Obj, position: usize) -> Reply<Obj> {
        quiet(self.list(list)[position - 1])
    }

    fn list_length(&mut self, _: &RootTable, list: Obj) -> Reply<i64> {
        quiet(self.list(list).len() as i64)
    }

    fn call_2(&mut self, _: &RootTable, function: Obj, first: Obj, second: Obj) -> Reply<Obj> {
        assert_eq!(*self.value(function), Value::Function("PrintTo"));
        let string = match self.value(first) {
            Value::OutputStream(string) => *string,
            other => panic!("{other:?} is no output stream"),
        };
        let printed = self.print(second);
        match self.objects.get_mut(&string) {
            Some(Value::Buffer { bytes, length }) => {
                for byte in printed {
                    if *length < bytes.len() {
                        bytes[*length] = byte;
                    } else {
                        bytes.push(byte);
                    }
                    *length += 1;
                }
            }
            other => panic!("{other:?} is no string"),
        }
        Reply { value: 0, raised: self.raise_on_print }
    }

    fn call_array(&mut self, roots: &RootTable, function: Obj, args: &Vec<Obj>) -> Reply<Obj> {
        self.collect(roots, &[]);
        match self.value(function) {
            Value::Function("Length") => {
                let length = self.list(args[0]).len() as i64;
                quiet(immediate(length))
            }
            Value::Function("MappingPermListList") => {
                let source = self.list(args[0]).clone();
                let target = self.list(args[1]).clone();
                let ordered: Vec<Obj> = (1..=source.len() as i64).map(immediate).collect();
                assert_eq!(source, ordered);
                let images = target.iter().map(|image| (*image as i64) >> 2).collect();
                quiet(self.allocate(Value::Permutation(images)))
            }
            Value::Function("OnPoints") => {
                let point = (args[0] >> 2) - 1;
                match self.objects.get(&args[1]) {
                    Some(Value::Permutation(images)) => quiet(immediate(images[point])),
                    _ => raised(0),
                }
            }
            _ => raised(0),
        }
    }

    fn string_length(&mut self, _: &RootTable, string: Obj) -> Reply<u64> {
        match self.value(string) {
            Value::Text(bytes) => quiet(bytes.len() as u64),
            Value::Buffer { length, .. } => quiet(*length as u64),
            other => panic!("{other:?} is no string"),
        }
    }

    fn string_bytes(&mut self, _: &RootTable, string: Obj, length: u64) -> Reply<Vec<u8>> {
        match self.value(string) {
            Value::Text(bytes) | Value::Buffer { bytes, .. } => {
                quiet(bytes[..length as usize].to_vec())
            }
            other => panic!("{other:?} is no string"),
        }
    }

    fn set_string_length(&mut self, _: &RootTable, string: Obj, length: usize) -> Reply<()> {
        match self.objects.get_mut(&string) {
            Some(Value::Buffer { length: held, .. }) => *held = length,
            other => panic!("{other:?} is no string"),
        }
        quiet(())
    }

    fn object_of_integer(&mut self, _: &RootTable, value: i64) -> Reply<Obj> {
        quiet(immediate(value))
    }

    fn integer_of_object(&mut self, _: &RootTable, object: Obj) -> Reply<i64> {
        assert_eq!(object % 4, 1);
        quiet((object as i64) >> 2)
    }

    fn new_plist(&mut self, roots: &RootTable, capacity: usize) -> Reply<Obj> {
        self.collect(roots, &[]);
        quiet(self.allocate(Value::List(Vec::with_capacity(capacity))))
    }

    fn set_plist_length(&mut self, _: &RootTable, list: Obj, length: usize) -> Reply<()> {
        self.objects.insert(list, Value::List(vec![0; length]));
        quiet(())
    }

    fn set_plist_element(
        &mut self,
        _: &RootTable,
        list: Obj,
        position: usize,
        element: Obj,
    ) -> Reply<()> {
        match self.objects.get_mut(&list) {
            Some(Value::List(elements)) => elements[position - 1] = element,
            other => panic!("{other:?} is no list"),
        }
        quiet(())
    }

    fn changed_bag(&mut self, _: &RootTable, list: Obj) -> Reply<()> {
        assert!(self.objects.contains_key(&list));
        quiet(())
    }
}

/// A kernel with a memory that a test can look into.
struct TestKernel(Rc<RefCell<Memory>>);

impl Kernel for TestKernel {
    fn initialize(&mut self, roots: &RootTable, args: &Vec<String>) -> Reply<Constants> {
        self.0.borrow_mut().initialize(roots, args)
    }

    fn variable_value(&mut self, roots: &RootTable, name: &str) -> Reply<Obj> {
        self.0.borrow_mut().variable_value(roots, name)
    }

    fn global_variable(&mut self, roots: &RootTable, name: &str) -> Reply<Obj> {
        self.0.borrow_mut().global_variable(roots, name)
    }

    fn new_string(&mut self, roots: &RootTable, length: usize) -> Reply<Obj> {
        self.0.borrow_mut().new_string(roots, length)
    }

    fn make_string(&mut self, roots: &RootTable, text: &str) -> Reply<Obj> {
        self.0.borrow_mut().make_string(roots, text)
    }

    fn operation_1(&mut self, roots: &RootTable, operation: Obj, arg: Obj) -> Reply<Obj> {
        self.0.borrow_mut().operation_1(roots, operation, arg)
    }

    fn operation_2(
        &mut self,
        roots: &RootTable,
        operation: Obj,
        first: Obj,
        second: Obj,
    ) -> Reply<Obj> {
        self.0.borrow_mut().operation_2(roots, operation, first, second)
    }

    fn open_output_stream(&mut self, roots: &RootTable, stream: Obj) -> Reply<u64> {
        self.0.borrow_mut().open_output_stream(roots, stream)
    }

    fn close_output(&mut self, roots: &RootTable) -> Reply<u64> {
        self.0.borrow_mut().close_output(roots)
    }

    fn read_all_commands(
        &mut self,
        roots: &RootTable,
        stream: Obj,
        echo: Obj,
        capture: Obj,
        callback: Obj,
    ) -> Reply<Obj> {
        self.0.borrow_mut().read_all_commands(roots, stream, echo, capture, callback)
    }

    fn list_element(&mut self, roots: &RootTable, list: Obj, position: usize) -> Reply<Obj> {
        self.0.borrow_mut().list_element(roots, list, position)
    }

    fn list_length(&mut self, roots: &RootTable, list: Obj) -> Reply<i64> {
        self.0.borrow_mut().list_length(roots, list)
    }

    fn call_2(&mut self, roots: &RootTable, function: Obj, first: Obj, second: Obj) -> Reply<Obj> {
        self.0.borrow_mut().call_2(roots, function, first, second)
    }

    fn call_array(&mut self, roots: &RootTable, function: Obj, args: &Vec<Obj>) -> Reply<Obj> {
        self.0.borrow_mut().call_array(roots, function, args)
    }

    fn string_length(&mut self, roots: &RootTable, string: Obj) -> Reply<u64> {
        self.0.borrow_mut().string_length(roots, string)
    }

    fn string_bytes(&mut self, roots: &RootTable, string: Obj, length: u64) -> Reply<Vec<u8>> {
        self.0.borrow_mut().string_bytes(roots, string, length)
    }

    fn set_string_length(&mut self, roots: &RootTable, string: Obj, length: usize) -> Reply<()> {
        self.0.borrow_mut().set_string_length(roots, string, length)
    }

    fn object_of_integer(&mut self, roots: &RootTable, value: i64) -> Reply<Obj> {
        self.0.borrow_mut().object_of_integer(roots, value)
    }

    fn integer_of_object(&mut self, roots: &RootTable, object: Obj) -> Reply<i64> {
        self.0.borrow_mut().integer_of_object(roots, object)
    }

    fn new_plist(&mut self, roots: &RootTable, capacity: usize) -> Reply<Obj> {
        self.0.borrow_mut().new_plist(roots, capacity)
    }

    fn set_plist_length(&mut self, roots: &RootTable, list: Obj, length: usize) -> Reply<()> {
        self.0.borrow_mut().set_plist_length(roots, list, length)
    }

    fn set_plist_element(
        &mut self,
        roots: &RootTable,
        list: Obj,
        position: usize,
        element: Obj,
    ) -> Reply<()> {
        self.0.borrow_mut().set_plist_element(roots, list, position, element)
    }

    fn changed_bag(&mut self, roots: &RootTable, list: Obj) -> Reply<()> {
        self.0.borrow_mut().changed_bag(roots, list)
    }
}

fn path(text: &str) -> PosixPath {
    PosixPath::from_text(text)
}

/// A file system with the given files and the directories above them.
fn tree(files: &[&str]) -> Tree {
    let mut directories: BTreeMap<String, Vec<Vec<u8>>> = BTreeMap::new();
    for file in files {
        let mut rest = *file;
        while let Some(cut) = rest.rfind('/') {
            let above = if cut == 0 { "/" } else { &rest[..cut] };
            let entries = directories.entry(above.to_string()).or_default();
            let name = rest[cut + 1..].as_bytes().to_vec();
            if !entries.contains(&name) {
                entries.push(name);
            }
            if above == "/" {
                break;
            }
            rest = above;
        }
    }
    Tree {
        files: files.iter().map(|file| path(file)).collect(),
        directories: directories
            .into_iter()
            .map(|(place, entries)| Directory { path: path(&place), entries: Some(entries) })
            .collect(),
    }
}

const ROOT: &str = "/opt/gap/lib/gap";

fn host() -> Host {
    Host {
        env_root: None,
        build_root: path(ROOT),
        tree: tree(&[
            "/opt/gap/lib/gap/lib/init.g",
            "/opt/gap/share/gap/pkg/gapdoc/PackageInfo.g",
        ]),
    }
}

fn kernel() -> TestKernel {
    kernel_with(|_| {})
}

fn kernel_with(change: impl FnOnce(&mut Memory)) -> TestKernel {
    let mut memory = Memory::default();
    memory.packages_at.push("/opt/gap/share/gap".to_string());
    change(&mut memory);
    TestKernel(Rc::new(RefCell::new(memory)))
}

fn cell() -> GlobalGap<TestKernel> {
    GlobalGap::new(kernel(), host())
}

fn started() -> Gap<TestKernel> {
    match Gap::try_init(Session::new(kernel()), &host()) {
        Ok(gap) => gap,
        Err(failure) => panic!("{}", failure.error.message()),
    }
}

#[test]
fn evaluation_and_scalar_conversions_cross_the_ffi_boundary() -> Result<(), GapError> {
    with_gap(&mut cell(), |gap: &mut Gap<TestKernel>| {
        let integer = gap.eval("42;")?;
        let boolean = gap.eval("true;")?;
        let failure = gap.eval("fail;")?;
        let string = gap.eval("\"Hello from GAP\";")?;

        assert_eq!(gap.to_usize(&integer)?, 42);
        assert!(gap.to_bool(&boolean)?);
        assert!(gap.is_fail(&failure));
        assert_eq!(gap.display(&string), "Hello from GAP");
        Ok(())
    })
}

#[test]
fn top_level_evaluation_keeps_results_alive_across_gap_calls() -> Result<(), GapError> {
    let mut cell = cell();
    let value = eval(&mut cell, "[1, 2, 3];")?;
    with_gap(&mut cell, |gap: &mut Gap<TestKernel>| {
        for _ in 0..100 {
            let squares = gap.eval("List([1..100], x -> x^2);")?;
            gap.release(squares);
        }
        assert_eq!(gap.list_len(&value), 3);
        let element = gap.list_get(&value, 2)?;
        assert_eq!(gap.to_usize(&element)?, 3);
        Ok(())
    })
}

#[test]
fn global_calls_and_collection_helpers_round_trip_values() -> Result<(), GapError> {
    with_gap(&mut cell(), |gap: &mut Gap<TestKernel>| {
        let elements = [gap.integer(2), gap.integer(4), gap.integer(6)];
        let list = gap.list(&elements);
        let length = gap.call_global("Length", &[&list])?;

        assert_eq!(gap.to_usize(&length)?, 3);
        let second = gap.list_get(&list, 1)?;
        assert_eq!(gap.to_usize(&second)?, 4);

        let permutation = gap.permutation_from_zero_based_images(&[2, 0, 1])?;
        assert_eq!(
            gap.permutation_images_zero_based(&permutation, 3)?,
            vec![2, 0, 1]
        );
        Ok(())
    })
}

#[test]
fn runtime_initialization_makes_standard_gap_packages_available() -> Result<(), GapError> {
    with_gap(&mut cell(), |gap: &mut Gap<TestKernel>| {
        let gapdoc = gap.eval("LoadPackage(\"gapdoc\");")?;
        if !gap.to_bool(&gapdoc).unwrap_or(false) {
            let roots = gap.eval("GAPInfo.RootPaths;")?;
            let root_paths = gap.display(&roots);
            panic!("unable to load GAP package gapdoc; GAPInfo.RootPaths = {root_paths}");
        }
        Ok(())
    })
}

#[test]
fn a_group_is_displayed_as_gap_prints_it() -> Result<(), GapError> {
    let mut gap = started();
    let group = gap.eval_unrooted("Group((1,2,3),(1,2));")?;
    assert_eq!(gap.elem_string(&group), "Group( [ (1,2,3), (1,2) ] )");
    Ok(())
}

#[test]
fn nested_lists_are_read_by_zero_based_indices() -> Result<(), GapError> {
    let mut gap = started();
    let outer_list = gap.eval("[[1, 2, 3], [4, 5, 6]];;")?;
    let inner_list = gap.get_list_elem(&outer_list.as_unrooted(), 1)?;
    let element = gap.get_list_elem(&inner_list, 1)?;
    assert_eq!(gap.elem_string(&element), "5");
    Ok(())
}

#[test]
fn gap_is_started_with_its_root_list() {
    let failing = kernel_with(|memory| memory.fail_initialize = true);
    let memory = failing.0.clone();
    let failure = match Gap::try_init(Session::new(failing), &host()) {
        Ok(_) => panic!("an error during initialization was overlooked"),
        Err(failure) => failure,
    };
    assert_eq!(failure.error, GapError::InitializationReported);
    assert_eq!(
        memory.borrow().started_with,
        [[
            "gap",
            "-l",
            "/opt/gap/lib/gap;/opt/gap/share/gap;",
            "-q",
            "-E",
            "--nointeract",
            "-x",
            "4096",
        ]]
    );
}

#[test]
fn libgap_is_started_once_at_the_checked_root() {
    let kernel = kernel();
    let memory = kernel.0.clone();
    let host = tree(&["/t/g/lib/init.g"]);
    let gap = Gap::try_init_with_root(Session::new(kernel), &path("/t/g"), &host);
    assert!(gap.is_ok());
    assert_eq!(
        memory.borrow().started_with,
        [["gap", "-l", "/t/g;", "-q", "-E", "--nointeract", "-x", "4096"]]
    );
}

#[test]
fn a_start_that_failed_can_be_made_again() {
    let failing = kernel_with(|memory| memory.fail_initialize = true);
    let memory = failing.0.clone();
    let failure = match Gap::try_init(Session::new(failing), &host()) {
        Ok(_) => panic!("an error during initialization was overlooked"),
        Err(failure) => failure,
    };
    memory.borrow_mut().fail_initialize = false;
    let mut gap = match Gap::try_init(failure.session, &host()) {
        Ok(gap) => gap,
        Err(failure) => panic!("{}", failure.error.message()),
    };
    assert_eq!(memory.borrow().started_with.len(), 2);
    let value = gap.eval("42;").unwrap();
    assert_eq!(gap.display(&value), "42");
}

#[test]
fn an_output_stream_that_does_not_open_is_an_error() {
    let refusing = kernel_with(|memory| memory.refuse_stream = true);
    match Gap::try_init(Session::new(refusing), &host()) {
        Ok(_) => panic!("a closed stream was overlooked"),
        Err(failure) => assert_eq!(failure.error, GapError::NoOutputStream),
    }
}

#[test]
fn a_root_without_the_core_file_is_refused_before_any_call() {
    let kernel = kernel();
    let memory = kernel.0.clone();
    let session = Session::new(kernel);
    let failure = match Gap::try_init_with_root(session, &path("/opt/other"), &host().tree) {
        Ok(_) => panic!("a root without the core file was accepted"),
        Err(failure) => failure,
    };
    assert_eq!(failure.error, GapError::InvalidRoot(path("/opt/other")));
    assert!(memory.borrow().started_with.is_empty());
    let packages_only = tree(&["/g/pkg/README"]);
    match Gap::try_init_with_root(failure.session, &path("/g"), &packages_only) {
        Ok(_) => panic!("a root without the core file was accepted"),
        Err(failure) => assert_eq!(
            failure.error.message(),
            "GAP root `/g` does not contain `lib/init.g`; set GAP_SYS_ROOT to a valid GAP root"
        ),
    }
    assert!(memory.borrow().started_with.is_empty());
}

#[test]
fn a_root_with_a_nul_is_refused_before_any_call() {
    let root = path("/opt/g\0ap");
    let host = tree(&["/opt/g\0ap/lib/init.g"]);
    let kernel = kernel();
    let memory = kernel.0.clone();
    match Gap::try_init_with_root(Session::new(kernel), &root, &host) {
        Ok(_) => panic!("a root with a NUL was accepted"),
        Err(failure) => assert_eq!(failure.error, GapError::NulInRoot),
    }
    assert!(memory.borrow().started_with.is_empty());
}

#[test]
fn the_environment_root_wins() {
    let host = Host {
        env_root: Some(path("/home/gap")),
        build_root: path(ROOT),
        tree: tree(&["/home/gap/lib/init.g", "/opt/gap/lib/gap/lib/init.g"]),
    };
    let kernel = kernel();
    let memory = kernel.0.clone();
    assert!(Gap::try_init(Session::new(kernel), &host).is_ok());
    assert_eq!(memory.borrow().started_with[0][2], "/home/gap;");
}

#[test]
fn commands_that_fail_are_errors() {
    let mut gap = started();
    assert_eq!(gap.eval("1/0;").err(), Some(GapError::EvaluationFailed));
    assert_eq!(gap.eval_rooted("1/0;").err(), Some(GapError::EvaluationFailed));
    assert_eq!(gap.eval_unrooted("1/0;").err(), Some(GapError::EvaluationFailed));
}

#[test]
fn scalars_are_converted_or_refused() -> Result<(), GapError> {
    let mut gap = started();
    let negative = gap.eval("-7;")?;
    let no = gap.eval("false;")?;
    let failure = gap.eval("fail;")?;
    assert_eq!(gap.to_usize(&negative), Err(GapError::NegativeInteger(-7)));
    assert_eq!(gap.integer_usize(&negative.as_unrooted()), Err(GapError::NegativeInteger(-7)));
    assert_eq!(gap.to_bool(&no), Ok(false));
    assert_eq!(gap.boolean(&no.as_unrooted()), Ok(false));
    assert_eq!(gap.to_bool(&negative), Err(GapError::NotABoolean));
    assert_eq!(gap.to_bool(&failure), Err(GapError::NotABoolean));
    assert!(!gap.is_fail(&no));
    assert!(gap.is_fail_unrooted(GapRef { obj: FAIL }));
    assert!(gap.is_fail_unrooted(GapRef { obj: KERNEL_FAIL }));
    Ok(())
}

#[test]
fn integers_come_back() -> Result<(), GapError> {
    let mut gap = started();
    for value in [0, 1, 2, 1_000_000] {
        let made = gap.integer(value);
        assert_eq!(gap.to_usize(&made)?, value as usize);
        let unrooted = gap.int_unrooted(value);
        assert_eq!(gap.to_usize_unrooted(unrooted)?, value as usize);
    }
    Ok(())
}

#[test]
fn displays_do_not_run_into_each_other() -> Result<(), GapError> {
    let mut gap = started();
    let first = gap.eval("42;")?;
    let second = gap.eval("true;")?;
    assert_eq!(gap.display(&first), "42");
    assert_eq!(gap.display(&second), "true");
    assert_eq!(gap.display_unrooted(first.as_unrooted()), "42");
    Ok(())
}

#[test]
fn nothing_of_an_earlier_display_is_left() -> Result<(), GapError> {
    let mut gap = started();
    let empty = gap.eval("\"\";")?;
    let long = gap.eval("\"Hello from GAP\";")?;
    let short = gap.eval("42;")?;
    assert_eq!(gap.display(&empty), "");
    assert_eq!(gap.display(&long), "Hello from GAP");
    assert_eq!(gap.display(&empty), "");
    assert_eq!(gap.display(&long), "Hello from GAP");
    assert_eq!(gap.display(&short), "42");
    assert_eq!(gap.display(&short), "42");
    Ok(())
}

#[test]
fn the_text_of_a_string_ends_before_a_nul() -> Result<(), GapError> {
    let mut gap = started();
    let string = gap.eval("\"a\\000b\";")?;
    assert_eq!(gap.string_text(string.as_unrooted()), "a");
    assert_eq!(gap.display(&string), "a\0b");
    let empty = gap.eval("\"\";")?;
    assert_eq!(gap.string_text(empty.as_unrooted()), "");
    Ok(())
}

#[test]
fn what_libgap_answers_to_a_start_decides() {
    assert_eq!(initialization_checked(false), Ok(()));
    assert_eq!(initialization_checked(true), Err(GapError::InitializationReported));
    assert_eq!(stream_checked(1), Ok(()));
    assert_eq!(stream_checked(0), Err(GapError::NoOutputStream));
    assert_eq!(stream_checked(2), Err(GapError::NoOutputStream));
}

#[test]
fn bytes_that_are_no_text_are_shown_as_replacements() -> Result<(), GapError> {
    let mut gap = started();
    let string = gap.eval("\"\\377\\n\";")?;
    assert_eq!(gap.display(&string), "a\u{fffd}b");
    assert_eq!(gap.string_text(string.as_unrooted()), "a\u{fffd}b");
    Ok(())
}

#[test]
fn lists_are_built_and_read_in_order() -> Result<(), GapError> {
    let mut gap = started();
    let empty = gap.list(&[]);
    assert_eq!(gap.list_len(&empty), 0);
    let elements: Vec<GapRef> = (5..9).map(|value| gap.int_unrooted(value)).collect();
    let list = gap.list_rooted(&elements);
    assert_eq!(gap.list_len(&list), 4);
    assert_eq!(gap.list_len_unrooted(list.as_unrooted()), 4);
    for idx in 0..4 {
        let element = gap.list_get(&list, idx)?;
        assert_eq!(gap.to_usize(&element)?, idx + 5);
        let unrooted = gap.list_get_unrooted(list.as_unrooted(), idx)?;
        assert_eq!(unrooted, elements[idx]);
    }
    assert_eq!(gap.display(&list), "[ 5, 6, 7, 8 ]");
    Ok(())
}

#[test]
fn permutations_come_back() -> Result<(), GapError> {
    let mut gap = started();
    for images in [vec![], vec![0], vec![1, 0], vec![4, 2, 0, 1, 3]] {
        let permutation = gap.permutation_from_zero_based_images(&images)?;
        assert_eq!(gap.permutation_images_zero_based(&permutation, images.len())?, images);
        let again = gap.permutation_from_zero_based_images_rooted(&images)?;
        assert_eq!(gap.permutation_images_zero_based(&again, images.len())?, images);
        for degree in 0..images.len() {
            let read = gap.permutation_images_zero_based(&again, degree)?;
            assert_eq!(read, images[..degree]);
        }
    }
    Ok(())
}

#[test]
fn a_point_sent_nowhere_is_an_error() -> Result<(), GapError> {
    let mut gap = started();
    let below = gap.permutation_from_zero_based_images(&[usize::MAX])?;
    assert_eq!(
        gap.permutation_images_zero_based(&below, 1),
        Err(GapError::OutsideDegree)
    );
    let negative = gap.permutation_from_zero_based_images(&[0, usize::MAX - 1])?;
    assert_eq!(
        gap.permutation_images_zero_based(&negative, 2),
        Err(GapError::NegativeInteger(-1))
    );
    let number = gap.integer(3);
    assert_eq!(
        gap.permutation_images_zero_based(&number, 1),
        Err(GapError::Reported(Activity::FunctionCall))
    );
    assert_eq!(gap.permutation_images_zero_based(&number, 0), Ok(vec![]));
    Ok(())
}

#[test]
fn lookups_and_calls_report_errors() -> Result<(), GapError> {
    let mut gap = started();
    assert_eq!(
        gap.get_global("NoSuchGlobal").err(),
        Some(GapError::Reported(Activity::GlobalLookup))
    );
    assert_eq!(
        gap.global("NoSuchGlobal").err(),
        Some(GapError::Reported(Activity::GlobalLookup))
    );
    assert_eq!(gap.get_global("Len\0gth").err(), Some(GapError::NulInName));
    assert_eq!(gap.call_global("Len\0gth", &[]).err(), Some(GapError::NulInName));
    assert_eq!(
        gap.call_global("NoSuchGlobal", &[]).err(),
        Some(GapError::Reported(Activity::GlobalLookup))
    );
    assert_eq!(
        gap.call_global("Error", &[]).err(),
        Some(GapError::Reported(Activity::FunctionCall))
    );
    let function = gap.global_rooted("Error")?;
    assert_eq!(
        gap.call(&function, &[]).err(),
        Some(GapError::Reported(Activity::FunctionCall))
    );
    let length = gap.global("Length")?;
    let list = gap.eval("[1, 2, 3];")?;
    let by_handle = gap.call_function(&length, &[&list.as_unrooted()])?;
    assert_eq!(gap.to_usize_unrooted(by_handle)?, 3);
    let by_name = gap.call_global_unrooted("Length", &[list.as_unrooted()])?;
    assert_eq!(gap.to_usize_unrooted(by_name)?, 3);
    let rooted = gap.call_global_rooted("Length", &[&list.as_unrooted()])?;
    assert_eq!(gap.to_usize(&rooted)?, 3);
    Ok(())
}

#[test]
fn an_error_during_display_shows_in_the_next_lookup_only() -> Result<(), GapError> {
    let raising = kernel_with(|memory| memory.raise_on_print = true);
    let mut gap = match Gap::try_init(Session::new(raising), &host()) {
        Ok(gap) => gap,
        Err(failure) => return Err(failure.error),
    };
    let value = gap.eval("42;")?;
    assert_eq!(gap.display(&value), "42");
    assert_eq!(
        gap.get_global("Length").err(),
        Some(GapError::Reported(Activity::GlobalLookup))
    );
    let length = gap.get_global("Length")?;
    let list = gap.eval("[1, 2, 3];")?;
    assert_eq!(gap.display(&list), "[ 1, 2, 3 ]");
    let counted = gap.call(&length, &[&list])?;
    assert_eq!(gap.to_usize(&counted)?, 3);
    assert!(gap.get_global("Length").is_ok());
    Ok(())
}

#[test]
fn rooted_values_survive_collections_and_others_do_not() -> Result<(), GapError> {
    let mut gap = started();
    let kept = gap.eval("[1, 2, 3];")?;
    let handle = gap.eval_unrooted("\"Hello from GAP\";")?;
    gap.root_ref(handle);
    gap.alloc_ref(&handle);
    gap.free(&handle);
    gap.eval_unrooted("true;")?;
    assert_eq!(gap.display_unrooted(handle), "Hello from GAP");
    assert_eq!(gap.list_len(&kept), 3);
    gap.unroot_ref(handle);
    gap.unroot_ref(handle);
    assert_eq!(gap.list_len(&kept), 3);
    Ok(())
}

#[test]
fn a_duplicate_keeps_its_object_alive() -> Result<(), GapError> {
    let mut gap = started();
    let value = gap.eval("[1, 2, 3];")?;
    let copy = gap.duplicate(&value);
    gap.release(value);
    gap.eval_unrooted("true;")?;
    assert_eq!(gap.list_len(&copy), 3);
    let handle = copy.as_unrooted();
    let rooted = gap.root(handle);
    gap.release(copy);
    gap.eval_unrooted("true;")?;
    assert_eq!(gap.list_len(&rooted), 3);
    Ok(())
}

#[test]
fn roots_are_counted_by_entry() {
    let mut table = RootTable::new();
    let first = GapRef { obj: 8 };
    let second = GapRef { obj: 16 };
    table.root_obj(&first);
    table.root_obj(&second);
    table.root_obj(&first);
    assert_eq!(table.mark_bag(), [first, second, first]);
    table.unroot_obj(&first);
    assert_eq!(table.mark_bag(), [second, first]);
    table.unroot_obj(&first);
    table.unroot_obj(&first);
    assert_eq!(table.mark_bag(), [second]);
    let value = GapValue::new(first, &mut table);
    let copy = value.duplicate(&mut table);
    assert_eq!(copy.as_unrooted(), first);
    assert_eq!(table.mark_bag(), [second, first, first]);
    value.release(&mut table);
    assert_eq!(table.mark_bag(), [second, first]);
    copy.release(&mut table);
    assert_eq!(table.mark_bag(), [second]);
}

#[test]
fn closing_the_output_reaches_libgap() {
    let mut gap = started();
    assert_eq!(gap.close_output(), 1);
}

#[test]
fn the_shared_runtime_is_initialized_once() {
    let kernel = kernel();
    let memory = kernel.0.clone();
    let mut cell = GlobalGap::new(kernel, host());
    assert_eq!(init_global(&mut cell), Ok(()));
    assert_eq!(init_global(&mut cell), Err(GapError::AlreadyInitialized));
    assert_eq!(
        GapBuilder::new().root(&path(ROOT)).init_global(&mut cell),
        Err(GapError::AlreadyInitialized)
    );
    assert!(gap_eval(&mut cell, "42;").is_ok());
    assert_eq!(memory.borrow().started_with.len(), 1);
}

#[test]
fn a_builder_chooses_the_root() {
    let mut cell = cell();
    let elsewhere = GapBuilder::new().root(&path("/opt/other"));
    assert_eq!(
        elsewhere.clone().init_global(&mut cell),
        Err(GapError::InvalidRoot(path("/opt/other")))
    );
    assert_eq!(elsewhere.root(&path(ROOT)).init_global(&mut cell), Ok(()));
}

#[test]
fn the_shared_runtime_starts_on_first_use() {
    let kernel = kernel();
    let memory = kernel.0.clone();
    let mut cell = GlobalGap::new(kernel, Host { build_root: path("/opt/other"), ..host() });
    assert_eq!(
        eval(&mut cell, "42;").err(),
        Some(GapError::InvalidRoot(path("/opt/other")))
    );
    assert!(memory.borrow().started_with.is_empty());
    assert_eq!(GapBuilder::default().root(&path(ROOT)).init_global(&mut cell), Ok(()));
    match global(&mut cell) {
        Ok(guard) => {
            let value = guard.gap.eval("42;").unwrap();
            assert_eq!(guard.gap.to_usize(&value), Ok(42));
        }
        Err(error) => panic!("{}", error.message()),
    }
    assert_eq!(
        with_gap(&mut cell, |gap: &mut Gap<TestKernel>| gap.eval("1/0;")).err(),
        Some(GapError::EvaluationFailed)
    );
    assert_eq!(memory.borrow().started_with.len(), 1);
}

#[test]
fn a_panic_elsewhere_closes_the_shared_runtime() {
    let mut cell = cell();
    cell.set_poisoned(true, false);
    assert_eq!(init_global(&mut cell), Err(GapError::InitializationPoisoned));
    assert_eq!(eval(&mut cell, "42;").err(), Some(GapError::InitializationPoisoned));
    cell.set_poisoned(false, false);
    assert!(eval(&mut cell, "42;").is_ok());
    cell.set_poisoned(true, false);
    assert!(eval(&mut cell, "42;").is_ok());
    cell.set_poisoned(false, true);
    assert_eq!(eval(&mut cell, "42;").err(), Some(GapError::RuntimePoisoned));
    assert_eq!(init_global(&mut cell), Err(GapError::AlreadyInitialized));
}

#[test]
fn errors_say_what_went_wrong() {
    let said = [
        (
            GapError::InvalidRoot(path("/opt/gap")),
            "GAP root `/opt/gap` does not contain `lib/init.g`; set GAP_SYS_ROOT to a valid GAP root",
        ),
        (GapError::NulInRoot, "GAP root contains an interior NUL byte"),
        (
            GapError::InitializationReported,
            "GAP reported an error during initialization; check that GAP's root and package directories are complete",
        ),
        (GapError::NoOutputStream, "Unable to open GAP output stream"),
        (GapError::EvaluationFailed, "Error evaluating command"),
        (
            GapError::NulInName,
            "GAP global variable name contains an interior NUL byte",
        ),
        (
            GapError::Reported(Activity::GlobalLookup),
            "GAP reported an error while looking up a global variable",
        ),
        (
            GapError::Reported(Activity::FunctionCall),
            "GAP reported an error while calling a GAP function",
        ),
        (
            GapError::NegativeInteger(-7),
            "GAP integer -7 cannot be represented as usize",
        ),
        (
            GapError::NegativeInteger(i64::MIN),
            "GAP integer -9223372036854775808 cannot be represented as usize",
        ),
        (GapError::NotABoolean, "GAP object is not a boolean"),
        (
            GapError::OutsideDegree,
            "permutation sent a point outside [1..degree]",
        ),
        (
            GapError::InitializationPoisoned,
            "global GAP initialization mutex was poisoned",
        ),
        (
            GapError::RuntimePoisoned,
            "global GAP runtime mutex was poisoned",
        ),
        (
            GapError::AlreadyInitialized,
            "global GAP runtime is already initialized",
        ),
    ];
    for (error, text) in said {
        assert_eq!(error.message(), text);
    }
}
