use vstd::prelude::*;
use vstd::string::*;
use crate::command::{
    all_finished, lemma_repeat_finished, lemma_repeat_view, ops_of, Command, Op,
};
use crate::direction::Direction;
use crate::point::Point;
use crate::turning_direction::TurningDirection;

verus! {

/// Something to draw.
#[derive(Debug, PartialEq, Eq)]
pub enum Fig {
    /// A straight stroke from `(x1, y1)` to `(x2, y2)`, of the width that
    /// the text `width` writes and of the colour `color` (red, green, blue).
    Line { x1: i64, y1: i64, x2: i64, y2: i64, width: String, color: (u8, u8, u8) },
    /// Several figures, drawn in order.
    Multiple(Vec<Fig>),
}

/// What a `Fig` says, as a mathematical value.
pub enum Shape {
    Line { x1: int, y1: int, x2: int, y2: int, width: Seq<char>, color: (u8, u8, u8) },
    Multiple(Seq<Shape>),
}

impl Fig {
    /// What the figure says.
    pub open spec fn model(self) -> Shape
        decreases self,
    {
        match self {
            Fig::Line { x1, y1, x2, y2, width, color } => Shape::Line {
                x1: x1 as int,
                y1: y1 as int,
                x2: x2 as int,
                y2: y2 as int,
                width: width@,
                color: color,
            },
            Fig::Multiple(parts) => Shape::Multiple(
                Seq::new(
                    parts@.len(),
                    |i: int|
                        if 0 <= i < parts@.len() {
                            parts@[i].model()
                        } else {
                            Shape::Multiple(Seq::empty())
                        },
                ),
            ),
        }
    }
}

impl View for Fig {
    type V = Shape;

    open spec fn view(&self) -> Shape {
        self.model()
    }
}

/// The shapes of a sequence of figures.
pub open spec fn shapes_of(figs: Seq<Fig>) -> Seq<Shape> {
    Seq::new(figs.len(), |i: int| figs[i]@)
}

/// The shape of a figure that may be absent.
pub open spec fn shape_of(fig: Option<Fig>) -> Option<Shape> {
    match fig {
        Some(f) => Some(f@),
        None => None,
    }
}

/// Several figures together say what each of them says.
pub proof fn lemma_multiple_view(parts: Vec<Fig>)
    ensures
        Fig::Multiple(parts)@ == Shape::Multiple(shapes_of(parts@)),
{
    assert(Fig::Multiple(parts)@->Multiple_0 =~= shapes_of(parts@));
}

/// The state of the drawing cursor, as a mathematical value.
pub struct State {
    pub x: int,
    pub y: int,
    pub dir: Direction,
    pub writing: bool,
    pub width: Seq<char>,
    pub color: (u8, u8, u8),
}

/// A state together with the shapes drawn on the way to it.
pub struct Trace {
    pub state: State,
    pub shapes: Seq<Shape>,
}

/// A state together with the shape that one operation drew, if any.
pub struct Effect {
    pub state: State,
    pub shape: Option<Shape>,
}

/// A coordinate kept within the range of the cursor's coordinates: one
/// beyond an end of the range is that end.
pub open spec fn clamp(v: int) -> int {
    if v < i64::MIN {
        i64::MIN as int
    } else if v > i64::MAX {
        i64::MAX as int
    } else {
        v
    }
}

/// The state after a move by `d` steps along the heading.
pub open spec fn advance(s: State, d: nat) -> State {
    State { x: clamp(s.x + d * s.dir.dx()), y: clamp(s.y + d * s.dir.dy()), ..s }
}

/// The stroke that a move by `d` steps draws: none with the pen up.
pub open spec fn stroke(s: State, d: nat) -> Option<Shape> {
    if s.writing {
        Some(
            Shape::Line {
                x1: s.x,
                y1: s.y,
                x2: advance(s, d).x,
                y2: advance(s, d).y,
                width: s.width,
                color: s.color,
            },
        )
    } else {
        None
    }
}

/// The shapes that an operation drew: one or none.
pub open spec fn emitted(shape: Option<Shape>) -> Seq<Shape> {
    match shape {
        Some(s) => seq![s],
        None => Seq::empty(),
    }
}

/// What one operation does to a state, and what it draws.
pub open spec fn run(s: State, op: Op) -> Effect
    decreases op, 0nat, 0nat,
{
    match op {
        Op::Forward(d) => Effect { state: advance(s, d), shape: stroke(s, d) },
        Op::Left => Effect {
            state: State { dir: s.dir.turned(TurningDirection::LEFT), ..s },
            shape: None,
        },
        Op::Right => Effect {
            state: State { dir: s.dir.turned(TurningDirection::RIGHT), ..s },
            shape: None,
        },
        Op::Up => Effect { state: State { writing: false, ..s }, shape: None },
        Op::Down => Effect { state: State { writing: true, ..s }, shape: None },
        Op::SetSize(w) => Effect { state: State { width: w, ..s }, shape: None },
        Op::SetColor(r, g, b) => Effect { state: State { color: (r, g, b), ..s }, shape: None },
        Op::Repeat(n, body) => {
            let t = run_times(s, body, n);
            Effect {
                state: t.state,
                shape: if t.shapes.len() == 0 {
                    None
                } else {
                    Some(Shape::Multiple(t.shapes))
                },
            }
        },
        Op::EndRepeat => Effect { state: s, shape: None },
    }
}

/// What the first `k` operations of a block do, one after the other.
pub open spec fn run_block(s: State, body: Seq<Op>, k: nat) -> Trace
    decreases body, 0nat, k,
{
    if k == 0 || k > body.len() {
        Trace { state: s, shapes: Seq::empty() }
    } else {
        let before = run_block(s, body, (k - 1) as nat);
        let e = run(before.state, body[k - 1]);
        Trace { state: e.state, shapes: before.shapes + emitted(e.shape) }
    }
}

/// What a block does when it is run `n` times.
pub open spec fn run_times(s: State, body: Seq<Op>, n: nat) -> Trace
    decreases body, 1nat, n,
{
    if n == 0 {
        Trace { state: s, shapes: Seq::empty() }
    } else {
        let before = run_times(s, body, (n - 1) as nat);
        let once = run_block(before.state, body, body.len());
        Trace { state: once.state, shapes: before.shapes + once.shapes }
    }
}

/// The drawing cursor: where it is, where it is heading, whether its pen
/// is down, and how it draws.
#[derive(Debug)]
pub struct Cursor {
    pos: Point<i64>,
    dir: Direction,
    writing: bool,
    stroke_width: String,
    stroke_color: (u8, u8, u8),
}

impl View for Cursor {
    type V = State;

    closed spec fn view(&self) -> State {
        State {
            x: self.pos.x as int,
            y: self.pos.y as int,
            dir: self.dir,
            writing: self.writing,
            width: self.stroke_width@,
            color: self.stroke_color,
        }
    }
}

/// Brings a coordinate into the range of the cursor's coordinates.
fn clamped(v: i128) -> (r: i64)
    ensures
        r == clamp(v as int),
{
    if v < -9223372036854775808i128 {
        -9223372036854775808i64
    } else if v > 9223372036854775807i128 {
        9223372036854775807i64
    } else {
        v as i64
    }
}

/// One coordinate after `distance` steps of `unit` each.
fn stepped(from: i64, distance: u32, unit: i32) -> (r: i64)
    requires
        -1 <= unit <= 1,
    ensures
        r == clamp(from + distance * unit),
{
    let delta: i128 = if unit == 1 {
        distance as i128
    } else if unit == -1 {
        -(distance as i128)
    } else {
        0
    };
    assert(delta == distance * unit) by (nonlinear_arith)
        requires
            -1 <= unit <= 1,
            delta == if unit == 1 {
                distance as int
            } else if unit == -1 {
                -(distance as int)
            } else {
                0
            },
    ;
    clamped(from as i128 + delta)
}

impl Cursor {
    /// A cursor at `(x, y)` that heads EAST with its pen down, and draws
    /// black strokes of width 2.
    pub fn new(x: i64, y: i64) -> (c: Cursor)
        ensures
            c@ == (State {
                x: x as int,
                y: y as int,
                dir: Direction::EAST,
                writing: true,
                width: "2"@,
                color: (0u8, 0u8, 0u8),
            }),
    {
        Cursor {
            pos: Point { x, y },
            dir: Direction::EAST,
            writing: true,
            stroke_width: String::from_str("2"),
            stroke_color: (0, 0, 0),
        }
    }

    /// Where the cursor is.
    pub fn position(&self) -> (p: Point<i64>)
        ensures
            p.x == self@.x,
            p.y == self@.y,
    {
        Point { x: self.pos.x, y: self.pos.y }
    }

    /// Where the cursor is heading.
    pub fn heading(&self) -> (d: Direction)
        ensures
            d == self@.dir,
    {
        self.dir
    }

    /// Whether the pen is down.
    pub fn is_writing(&self) -> (w: bool)
        ensures
            w == self@.writing,
    {
        self.writing
    }

    /// The stroke width, as it was written.
    pub fn width(&self) -> (w: String)
        ensures
            w@ == self@.width,
    {
        self.stroke_width.clone()
    }

    /// The stroke colour: red, green, blue.
    pub fn color(&self) -> (c: (u8, u8, u8))
        ensures
            c == self@.color,
    {
        self.stroke_color
    }

    /// Turns the cursor by a quarter.
    pub fn rotate(&mut self, d: &TurningDirection)
        ensures
            final(self)@ == (State { dir: old(self)@.dir.turned(*d), ..old(self)@ }),
    {
        self.dir = self.dir.rotate(d);
    }

    /// Moves the cursor along its heading, and draws the stroke if the pen
    /// is down.
    pub fn move_forwards(&mut self, distance: u32) -> (fig: Option<Fig>)
        ensures
            final(self)@ == advance(old(self)@, distance as nat),
            shape_of(fig) == stroke(old(self)@, distance as nat),
    {
        let old_position = Point { x: self.pos.x, y: self.pos.y };
        let dir = self.dir.value();
        let x = stepped(self.pos.x, distance, dir.x);
        let y = stepped(self.pos.y, distance, dir.y);
        self.pos = Point { x, y };
        let new_position = Point { x, y };
        if self.writing {
            Some(self.draw_line(&old_position, &new_position))
        } else {
            None
        }
    }

    /// The stroke from `from` to `to` in the cursor's width and colour.
    pub fn draw_line(&self, from: &Point<i64>, to: &Point<i64>) -> (fig: Fig)
        ensures
            fig@ == (Shape::Line {
                x1: from.x as int,
                y1: from.y as int,
                x2: to.x as int,
                y2: to.y as int,
                width: self@.width,
                color: self@.color,
            }),
    {
        Fig::Line {
            x1: from.x,
            y1: from.y,
            x2: to.x,
            y2: to.y,
            width: self.stroke_width.clone(),
            color: self.stroke_color,
        }
    }

    /// Lifts the pen.
    pub fn stop_writing(&mut self)
        ensures
            final(self)@ == (State { writing: false, ..old(self)@ }),
    {
        self.writing = false;
    }

    /// Lowers the pen.
    pub fn start_writing(&mut self)
        ensures
            final(self)@ == (State { writing: true, ..old(self)@ }),
    {
        self.writing = true;
    }

    /// Sets the stroke width to the number that `d` writes.
    pub fn set_size(&mut self, d: &str)
        ensures
            final(self)@ == (State { width: d@, ..old(self)@ }),
    {
        self.stroke_width = String::from_str(d);
    }

    /// Sets the stroke colour.
    pub fn set_color(&mut self, r: u8, g: u8, b: u8)
        ensures
            final(self)@ == (State { color: (r, g, b), ..old(self)@ }),
    {
        self.stroke_color = (r, g, b);
    }

    /// Executes one command, and hands back what it drew. The closing
    /// marker of a block is no command to execute.
    pub fn apply_command(&mut self, cmd: &Command) -> (fig: Option<Fig>)
        requires
            cmd@.finished(),
        ensures
            final(self)@ == run(old(self)@, cmd@).state,
            shape_of(fig) == run(old(self)@, cmd@).shape,
        decreases cmd,
    {
        match cmd {
            Command::Forward(d) => {
                return self.move_forwards(*d);
            },
            Command::Repeat(n, c) => {
                proof {
                    lemma_repeat_view(*n, *c);
                    lemma_repeat_finished(*n as nat, ops_of(c@));
                }
                return self.repeat(*n, c);
            },
            Command::SetSize(d) => self.set_size(d.as_str()),
            Command::SetColor(r, g, b) => self.set_color(*r, *g, *b),
            Command::Left => self.rotate(&TurningDirection::LEFT),
            Command::Right => self.rotate(&TurningDirection::RIGHT),
            Command::Up => self.stop_writing(),
            Command::Down => self.start_writing(),
            Command::EndRepeat => {},
        }
        None
    }

    /// Executes the commands of a block `n` times over, and hands back all
    /// that they drew as one figure, or nothing if they drew nothing.
    #[verifier::loop_isolation(false)]
    pub fn repeat(&mut self, n: u32, cs: &Vec<Command>) -> (fig: Option<Fig>)
        requires
            all_finished(ops_of(cs@)),
        ensures
            final(self)@ == run(old(self)@, Op::Repeat(n as nat, ops_of(cs@))).state,
            shape_of(fig) == run(old(self)@, Op::Repeat(n as nat, ops_of(cs@))).shape,
        decreases cs,
    {
        let ghost body = ops_of(cs@);
        let ghost start = self@;
        let mut figs: Vec<Fig> = Vec::new();
        let mut iteration: u32 = 0;
        assert(shapes_of(figs@) =~= Seq::<Shape>::empty());
        while iteration < n
            invariant
                iteration <= n,
                self@ == run_times(start, body, iteration as nat).state,
                shapes_of(figs@) == run_times(start, body, iteration as nat).shapes,
            decreases n - iteration,
        {
            let ghost round = self@;
            let ghost drawn = shapes_of(figs@);
            let mut i: usize = 0;
            assert(drawn + Seq::<Shape>::empty() =~= drawn);
            while i < cs.len()
                invariant
                    i <= cs.len(),
                    self@ == run_block(round, body, i as nat).state,
                    shapes_of(figs@) == drawn + run_block(round, body, i as nat).shapes,
                decreases cs.len() - i,
            {
                let ghost before = run_block(round, body, i as nat);
                let ghost had = figs@;
                assert(body[i as int] == cs@[i as int]@);
                assert(body[i as int].finished());
                match self.apply_command(&cs[i]) {
                    Some(f) => {
                        figs.push(f);
                        assert(shapes_of(figs@) =~= shapes_of(had).push(f@));
                        assert(drawn + (before.shapes + seq![f@]) =~= (drawn
                            + before.shapes).push(f@));
                    },
                    None => {
                        assert(drawn + (before.shapes + Seq::<Shape>::empty()) =~= drawn
                            + before.shapes);
                    },
                }
                i += 1;
            }
            iteration += 1;
        }
        if figs.len() == 0 {
            None
        } else {
            proof {
                lemma_multiple_view(figs);
            }
            Some(Fig::Multiple(figs))
        }
    }
}

/// A block that is run no times draws nothing and leaves the cursor as it
/// was.
pub proof fn lemma_repeat_zero(s: State, body: Seq<Op>)
    ensures
        run(s, Op::Repeat(0, body)).state == s,
        run(s, Op::Repeat(0, body)).shape is None,
{
}

/// Running a block `n + m` times is running it `n` times and then `m`
/// times more: the states agree, and what was drawn is what the first
/// runs drew followed by what the later runs drew.
pub proof fn lemma_run_times_adds(s: State, body: Seq<Op>, n: nat, m: nat)
    ensures
        run_times(s, body, n + m).state == run_times(run_times(s, body, n).state, body, m).state,
        run_times(s, body, n + m).shapes == run_times(s, body, n).shapes + run_times(
            run_times(s, body, n).state,
            body,
            m,
        ).shapes,
    decreases m,
{
    let first = run_times(s, body, n);
    if m == 0 {
        assert(first.shapes + Seq::<Shape>::empty() =~= first.shapes);
    } else {
        lemma_run_times_adds(s, body, n, (m - 1) as nat);
        let later = run_times(first.state, body, (m - 1) as nat);
        let once = run_block(later.state, body, body.len());
        assert((n + m - 1) as nat == n + (m - 1) as nat);
        assert((first.shapes + later.shapes) + once.shapes =~= first.shapes + (later.shapes
            + once.shapes));
    }
}

} // verus!
