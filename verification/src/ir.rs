use vstd::prelude::*;
use crate::text::{clone_names, name_of, names_in, names_of, Name};

verus! {

/// `serde_json::Value`, the literal of a `const`. An instruction carries it through;
/// nothing here looks into it.
#[verifier::external_type_specification]
#[verifier::external_body]
pub struct ExValue(serde_json::Value);

/// Copies a literal with `serde_json::Value::clone`, which the crate derives:
/// the copy is the same value as the one it was made from.
#[verifier::external_body]
fn clone_value(v: &serde_json::Value) -> (r: serde_json::Value)
    ensures
        r == *v,
{
    v.clone()
}

/// One line of a function: a label, or an operation with what it reads and writes.
/// Every field is optional; a label line has only `label`.
#[derive(Debug, PartialEq)]
pub struct Instruction {
    pub label: Option<String>,
    pub labels: Option<Vec<String>>,
    pub op: Option<String>,
    pub ty: Option<String>,
    pub dest: Option<String>,
    pub value: Option<serde_json::Value>,
    pub args: Option<Vec<String>>,
}

/// What an instruction says, with every string as its characters.
pub ghost struct InstructionView {
    pub label: Option<Name>,
    pub labels: Option<Seq<Name>>,
    pub op: Option<Name>,
    pub ty: Option<Name>,
    pub dest: Option<Name>,
    pub value: Option<serde_json::Value>,
    pub args: Option<Seq<Name>>,
}

impl View for Instruction {
    type V = InstructionView;

    open spec fn view(&self) -> InstructionView {
        InstructionView {
            label: name_of(self.label),
            labels: names_in(self.labels),
            op: name_of(self.op),
            ty: name_of(self.ty),
            dest: name_of(self.dest),
            value: self.value,
            args: names_in(self.args),
        }
    }
}

/// The instructions of a sequence as contracts see them.
pub open spec fn code_of(s: Seq<Instruction>) -> Seq<InstructionView> {
    Seq::new(s.len(), |i: int| s[i]@)
}

/// A list of instruction sequences as contracts see it.
pub open spec fn chunks_of(s: Seq<Vec<Instruction>>) -> Seq<Seq<InstructionView>> {
    Seq::new(s.len(), |i: int| code_of(s[i]@))
}

/// The instruction with no field set.
pub open spec fn blank() -> InstructionView {
    InstructionView {
        label: None,
        labels: None,
        op: None,
        ty: None,
        dest: None,
        value: None,
        args: None,
    }
}

/// The line that opens the block `name`.
pub open spec fn label_line(name: Name) -> InstructionView {
    InstructionView { label: Some(name), ..blank() }
}

/// An unconditional jump to `target`.
pub open spec fn jump_line(target: Name) -> InstructionView {
    InstructionView { op: Some("jmp"@), labels: Some(seq![target]), ..blank() }
}

/// A return without a value.
pub open spec fn return_line() -> InstructionView {
    InstructionView { op: Some("ret"@), ..blank() }
}

/// The copy `dest = id source`.
pub open spec fn copy_line(dest: Option<Name>, source: Name) -> InstructionView {
    InstructionView { op: Some("id"@), dest: dest, args: Some(seq![source]), ..blank() }
}

/// The merge `dest = phi args labels`.
pub open spec fn phi_line(dest: Name, args: Seq<Name>, labels: Seq<Name>) -> InstructionView {
    InstructionView {
        op: Some("phi"@),
        dest: Some(dest),
        args: Some(args),
        labels: Some(labels),
        ..blank()
    }
}

fn clone_name(o: &Option<String>) -> (r: Option<String>)
    ensures
        r == *o,
{
    match o {
        Some(s) => Some(s.clone()),
        None => None,
    }
}

fn clone_name_list(o: &Option<Vec<String>>) -> (r: Option<Vec<String>>)
    ensures
        names_in(r) == names_in(*o),
        r is Some <==> *o is Some,
        r is Some ==> r->0@ == o->0@,
{
    match o {
        Some(v) => Some(clone_names(v)),
        None => None,
    }
}

impl Clone for Instruction {
    fn clone(&self) -> (r: Self)
        ensures
            r@ == self@,
    {
        Instruction {
            label: clone_name(&self.label),
            labels: clone_name_list(&self.labels),
            op: clone_name(&self.op),
            ty: clone_name(&self.ty),
            dest: clone_name(&self.dest),
            value: match &self.value {
                Some(v) => Some(clone_value(v)),
                None => None,
            },
            args: clone_name_list(&self.args),
        }
    }
}

impl Default for Instruction {
    fn default() -> (r: Self)
        ensures
            r@ == blank(),
    {
        Instruction {
            label: None,
            labels: None,
            op: None,
            ty: None,
            dest: None,
            value: None,
            args: None,
        }
    }
}

impl Instruction {
    /// The line that opens the block `name`.
    pub fn label_line(name: String) -> (r: Self)
        ensures
            r@ == label_line(name@),
    {
        Instruction {
            label: Some(name),
            labels: None,
            op: None,
            ty: None,
            dest: None,
            value: None,
            args: None,
        }
    }

    /// An unconditional jump to `target`.
    pub fn jump_line(target: String) -> (r: Self)
        ensures
            r@ == jump_line(target@),
    {
        let mut labels: Vec<String> = Vec::new();
        labels.push(target);
        let r = Instruction {
            label: None,
            labels: Some(labels),
            op: Some("jmp".to_owned()),
            ty: None,
            dest: None,
            value: None,
            args: None,
        };
        assert(names_of(labels@) =~= seq![target@]);
        r
    }

    /// A return without a value.
    pub fn return_line() -> (r: Self)
        ensures
            r@ == return_line(),
    {
        Instruction {
            label: None,
            labels: None,
            op: Some("ret".to_owned()),
            ty: None,
            dest: None,
            value: None,
            args: None,
        }
    }
}

/// A formal argument of a function.
#[derive(Debug, PartialEq)]
pub struct Argument {
    pub name: String,
    pub ty: String,
}

impl Clone for Argument {
    fn clone(&self) -> (r: Self)
        ensures
            r == *self,
    {
        Argument { name: self.name.clone(), ty: self.ty.clone() }
    }
}

/// A function: its name, its formal arguments if it lists any, and its instructions in order.
#[derive(Debug, PartialEq)]
pub struct Function {
    pub name: String,
    pub args: Option<Vec<Argument>>,
    pub instrs: Vec<Instruction>,
}

/// A program: its functions, in order.
#[derive(Debug, PartialEq)]
pub struct Bril {
    pub functions: Vec<Function>,
}

/// A copy of a sequence of instructions.
pub fn clone_code(v: &[Instruction]) -> (r: Vec<Instruction>)
    ensures
        code_of(r@) == code_of(v@),
{
    let mut r: Vec<Instruction> = Vec::new();
    let mut i: usize = 0;
    while i < v.len()
        invariant
            i <= v.len(),
            r.len() == i,
            forall|k: int| 0 <= k < i ==> r@[k]@ == v@[k]@,
        decreases v.len() - i,
    {
        r.push(v[i].clone());
        i += 1;
    }
    assert(code_of(r@) =~= code_of(v@));
    r
}

} // verus!
