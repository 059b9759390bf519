//! What can go wrong while a reel is assembled or run.

use vstd::prelude::*;
use vstd::string::StringExecFns;
use crate::number::{decimal, push_decimal};
use crate::text::push_char;

verus! {

/// One step from a document's node to a child: into a field or an element.
#[derive(Debug, PartialEq, Eq)]
pub enum PathStep {
    Field(String),
    Index(usize),
}

/// The mathematical value of a [`PathStep`].
pub enum StepView {
    Field(Seq<char>),
    Index(nat),
}

impl View for PathStep {
    type V = StepView;

    open spec fn view(&self) -> StepView {
        match self {
            PathStep::Field(name) => StepView::Field(name@),
            PathStep::Index(i) => StepView::Index(*i as nat),
        }
    }
}

/// The steps of a path, each by its view.
pub open spec fn path_view(path: Seq<PathStep>) -> Seq<StepView> {
    Seq::new(path.len(), |i: int| path[i]@)
}

/// The ways in which assembling or running a reel fails.
#[derive(Debug, PartialEq, Eq)]
pub enum FrError {
    /// A document is malformed or has not the shape that is asked for.
    Parse,
    /// A variable that a frame reads, or a placeholder names, has no value.
    MissingVariable(String),
    /// A write's expression, the second field, matched nothing in the
    /// response; the first field is the variable that was to be written.
    PathQuery(String, String),
    /// The observed response differs from the expected one at this path.
    ResponseMismatch(Vec<PathStep>),
    /// A file that a reel refers to could not be had.
    File(String),
}

/// The mathematical value of an [`FrError`].
pub enum Fault {
    Parse,
    MissingVariable(Seq<char>),
    PathQuery(Seq<char>, Seq<char>),
    ResponseMismatch(Seq<StepView>),
    File(Seq<char>),
}

impl View for FrError {
    type V = Fault;

    open spec fn view(&self) -> Fault {
        match self {
            FrError::Parse => Fault::Parse,
            FrError::MissingVariable(name) => Fault::MissingVariable(name@),
            FrError::PathQuery(name, expression) => Fault::PathQuery(name@, expression@),
            FrError::ResponseMismatch(path) => Fault::ResponseMismatch(path_view(path@)),
            FrError::File(path) => Fault::File(path@),
        }
    }
}

/// How one step is written: a field as a dot and its name, an element as
/// its index in square brackets.
pub open spec fn step_text(step: StepView) -> Seq<char> {
    match step {
        StepView::Field(name) => seq!['.'] + name,
        StepView::Index(i) => seq!['['] + decimal(i) + seq![']'],
    }
}

/// The steps of a path, written one after the other.
pub open spec fn steps_text(path: Seq<StepView>) -> Seq<char>
    decreases path.len(),
{
    if path.len() == 0 {
        Seq::empty()
    } else {
        steps_text(path.drop_last()) + step_text(path.last())
    }
}

/// How a path is written: its steps one after the other, and a single dot
/// for the root.
pub open spec fn path_text(path: Seq<StepView>) -> Seq<char> {
    if path.len() == 0 {
        seq!['.']
    } else {
        steps_text(path)
    }
}

/// What an error says.
pub open spec fn description(fault: Fault) -> Seq<char> {
    match fault {
        Fault::Parse => "malformed document"@,
        Fault::MissingVariable(name) => "missing variable: "@ + name,
        Fault::PathQuery(name, expression) => "no match for "@ + name + " by "@ + expression,
        Fault::ResponseMismatch(path) => "response mismatch at "@ + path_text(path),
        Fault::File(path) => "cannot load file: "@ + path,
    }
}

/// Appends a path as [`path_text`] writes it.
fn push_path(out: &mut String, path: &Vec<PathStep>)
    ensures
        final(out)@ == old(out)@ + path_text(path_view(path@)),
{
    let ghost start = out@;
    let ghost steps = path_view(path@);
    if path.len() == 0 {
        push_char(out, '.');
        proof {
            assert(start.push('.') =~= start + path_text(steps));
        }
        return;
    }
    let mut i: usize = 0;
    proof {
        assert(steps.take(0) =~= Seq::empty());
        assert(start + steps_text(steps.take(0)) =~= start);
    }
    while i < path.len()
        invariant
            i <= path.len(),
            steps == path_view(path@),
            out@ == start + steps_text(steps.take(i as int)),
        decreases path.len() - i,
    {
        let ghost sofar = out@;
        proof {
            assert(steps.take(i + 1).drop_last() =~= steps.take(i as int));
        }
        match &path[i] {
            PathStep::Field(name) => {
                push_char(out, '.');
                out.append(name.as_str());
                proof {
                    assert(out@ =~= sofar + (seq!['.'] + name@));
                }
            },
            PathStep::Index(index) => {
                push_char(out, '[');
                push_decimal(out, *index as u64);
                push_char(out, ']');
                proof {
                    assert(out@ =~= sofar + (seq!['['] + decimal(*index as nat) + seq![']']));
                }
            },
        }
        proof {
            assert(start + steps_text(steps.take(i + 1)) =~= sofar + step_text(steps[i as int]));
        }
        i += 1;
    }
    proof {
        assert(steps.take(i as int) =~= steps);
    }
}

/// Writes a path: `.status` for the field `status` of the root, `.items[2]`
/// for the third element of its field `items`, `.` for the root itself.
pub fn render_path(path: &Vec<PathStep>) -> (r: String)
    ensures
        r@ == path_text(path_view(path@)),
{
    let mut out = String::new();
    push_path(&mut out, path);
    proof {
        assert(Seq::<char>::empty() + path_text(path_view(path@)) =~= path_text(path_view(path@)));
    }
    out
}

impl FrError {
    /// Says in words what went wrong.
    pub fn describe(&self) -> (r: String)
        ensures
            r@ == description(self@),
    {
        match self {
            FrError::Parse => "malformed document".to_owned(),
            FrError::MissingVariable(name) => {
                let mut out = "missing variable: ".to_owned();
                out.append(name.as_str());
                out
            },
            FrError::PathQuery(name, expression) => {
                let mut out = "no match for ".to_owned();
                out.append(name.as_str());
                out.append(" by ");
                out.append(expression.as_str());
                out
            },
            FrError::ResponseMismatch(path) => {
                let mut out = "response mismatch at ".to_owned();
                push_path(&mut out, path);
                out
            },
            FrError::File(path) => {
                let mut out = "cannot load file: ".to_owned();
                out.append(path.as_str());
                out
            },
        }
    }
}

} // verus!
