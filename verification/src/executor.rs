use vstd::prelude::*;
use crate::lexer::SpecToken;
use crate::parser::{
    AST, Command, SpecAst, SpecCommand, lemma_words_end_bounds, parse_command, parse_pipeline,
    pipe_rest, strings_view,
};

verus! {

/// The executor of command lists.
pub struct Execute {}

/// How a list of commands is to be run.
#[derive(Debug, Clone, Copy, PartialEq, Eq, Structural)]
pub enum Dispatch {
    /// No command: nothing to run.
    Nothing,
    /// One command: run it in a child process and wait for it.
    Execute,
    /// Two commands: run both in child processes, the output of the first
    /// piped into the input of the second, and wait for both.
    PipeExecute,
}

/// The values of a sequence of commands.
pub open spec fn commands_view(cs: Seq<Command>) -> Seq<SpecCommand> {
    cs.map_values(|c: Command| c@)
}

/// The commands of a pipeline from left to right.
pub open spec fn leaves(a: SpecAst) -> Seq<SpecCommand>
    decreases a,
{
    match a {
        SpecAst::Command(c) => seq![c],
        SpecAst::Pipe(l, r) => leaves(*l) + leaves(*r),
    }
}

/// How [`Execute::run_commands`] runs `n` commands, for `n` up to two.
pub open spec fn dispatch_for(n: nat) -> Dispatch {
    if n == 0 {
        Dispatch::Nothing
    } else if n == 1 {
        Dispatch::Execute
    } else {
        Dispatch::PipeExecute
    }
}

/// The commands that follow position `q` of `t`, each after a `|`, in
/// order, and the position after the last; `None` where a `|` is not
/// followed by a command.
pub open spec fn piped_commands(t: Seq<SpecToken>, q: nat) -> Option<(Seq<SpecCommand>, nat)>
    decreases t.len() - q,
{
    if q < t.len() && t[q as int] is Pipe {
        match parse_command(t, q + 1) {
            Some((c, r)) => {
                proof {
                    lemma_words_end_bounds(t, q + 2);
                }
                match piped_commands(t, r) {
                    Some((cs, e)) => Some((seq![c] + cs, e)),
                    None => None,
                }
            },
            None => None,
        }
    } else {
        Some((seq![], q))
    }
}

/// The commands of the pipeline at position `p` of `t`, in the order they
/// appear, and the position after them.
pub open spec fn pipeline_commands(t: Seq<SpecToken>, p: nat) -> Option<(Seq<SpecCommand>, nat)> {
    match parse_command(t, p) {
        Some((c, r)) => match piped_commands(t, r) {
            Some((cs, e)) => Some((seq![c] + cs, e)),
            None => None,
        },
        None => None,
    }
}

proof fn lemma_pipe_rest_leaves(t: Seq<SpecToken>, left: SpecAst, q: nat)
    ensures
        pipe_rest(t, left, q) is Some == piped_commands(t, q) is Some,
        pipe_rest(t, left, q) matches Some((a, e)) ==> piped_commands(t, q) matches Some((cs, e2))
            && e2 == e && leaves(a) == leaves(left) + cs,
    decreases t.len() - q,
{
    if q < t.len() && t[q as int] is Pipe {
        if let Some((c, r)) = parse_command(t, q + 1) {
            lemma_words_end_bounds(t, q + 2);
            let next = SpecAst::Pipe(Box::new(left), Box::new(SpecAst::Command(c)));
            lemma_pipe_rest_leaves(t, next, r);
            if let Some((a, e)) = pipe_rest(t, next, r) {
                let cs = piped_commands(t, r).unwrap().0;
                assert(leaves(SpecAst::Command(c)) =~= seq![c]);
                assert(leaves(next) =~= leaves(left) + seq![c]);
                assert(leaves(a) =~= leaves(left) + (seq![c] + cs));
            }
        }
    } else {
        assert(leaves(left) + seq![] =~= leaves(left));
    }
}

/// Parsing a pipeline and flattening it lists its commands in the order they
/// appear in the tokens: parsing succeeds exactly where the commands can be
/// read one after another, separated by `|`, and the pipeline's commands
/// from left to right are those commands.
pub proof fn law_flatten_parsed_pipeline(t: Seq<SpecToken>, p: nat)
    ensures
        parse_pipeline(t, p) is Some == pipeline_commands(t, p) is Some,
        parse_pipeline(t, p) matches Some((a, e)) ==> pipeline_commands(t, p) == Some((leaves(a), e)),
{
    if let Some((c, r)) = parse_command(t, p) {
        lemma_pipe_rest_leaves(t, SpecAst::Command(c), r);
    }
}

/// A pipeline nested to the right: the first command piped into the
/// pipeline of the rest (`a | (b | (c | d))`).
pub open spec fn right_nested(cs: Seq<SpecCommand>) -> SpecAst
    decreases cs.len(),
{
    if cs.len() <= 1 {
        SpecAst::Command(cs[0])
    } else {
        SpecAst::Pipe(Box::new(SpecAst::Command(cs[0])), Box::new(right_nested(cs.drop_first())))
    }
}

/// A pipeline nested to the left: the pipeline of all but the last command
/// piped into the last (`((a | b) | c) | d`).
pub open spec fn left_nested(cs: Seq<SpecCommand>) -> SpecAst
    decreases cs.len(),
{
    if cs.len() <= 1 {
        SpecAst::Command(cs[0])
    } else {
        SpecAst::Pipe(Box::new(left_nested(cs.drop_last())), Box::new(SpecAst::Command(cs.last())))
    }
}

/// Flattening is compositional: a single command gives itself, and a pipe
/// gives the commands of its left side followed by those of its right
/// side, whatever the shape of either side.
pub proof fn law_flatten_compositional(c: SpecCommand, l: SpecAst, r: SpecAst)
    ensures
        leaves(SpecAst::Command(c)) == seq![c],
        leaves(SpecAst::Pipe(Box::new(l), Box::new(r))) == leaves(l) + leaves(r),
{
}

/// A pipeline nested to the right flattens to its commands in order.
pub proof fn law_flatten_right_nested(cs: Seq<SpecCommand>)
    requires
        cs.len() >= 1,
    ensures
        leaves(right_nested(cs)) == cs,
    decreases cs.len(),
{
    if cs.len() > 1 {
        law_flatten_right_nested(cs.drop_first());
        assert(leaves(SpecAst::Command(cs[0])) == seq![cs[0]]);
        assert(seq![cs[0]] + cs.drop_first() =~= cs);
    } else {
        assert(seq![cs[0]] =~= cs);
    }
}

/// A pipeline nested to the left flattens to its commands in order.
pub proof fn law_flatten_left_nested(cs: Seq<SpecCommand>)
    requires
        cs.len() >= 1,
    ensures
        leaves(left_nested(cs)) == cs,
    decreases cs.len(),
{
    if cs.len() > 1 {
        law_flatten_left_nested(cs.drop_last());
        assert(leaves(SpecAst::Command(cs.last())) == seq![cs.last()]);
        assert(cs.drop_last() + seq![cs.last()] =~= cs);
    } else {
        assert(seq![cs[0]] =~= cs);
    }
}

/// Every command of a pipeline appears in its flattening: the flattening of
/// a pipe is as long as the flattenings of its two sides together, and a
/// pipeline holds at least one command.
pub proof fn law_flatten_length(a: SpecAst)
    ensures
        leaves(a).len() >= 1,
        a matches SpecAst::Pipe(l, r) ==> leaves(a).len() == leaves(*l).len() + leaves(*r).len(),
    decreases a,
{
    if let SpecAst::Pipe(l, r) = a {
        law_flatten_length(*l);
        law_flatten_length(*r);
    }
}

proof fn lemma_pipe_rest_left_nested(t: Seq<SpecToken>, prefix: Seq<SpecCommand>, q: nat)
    requires
        prefix.len() >= 1,
    ensures
        pipe_rest(t, left_nested(prefix), q) matches Some((a, _)) ==> piped_commands(t, q) matches Some(
            (cs, _),
        ) && a == left_nested(prefix + cs),
    decreases t.len() - q,
{
    lemma_pipe_rest_leaves(t, left_nested(prefix), q);
    if q < t.len() && t[q as int] is Pipe {
        if let Some((c, r)) = parse_command(t, q + 1) {
            lemma_words_end_bounds(t, q + 2);
            let next = prefix.push(c);
            assert(next.drop_last() =~= prefix);
            assert(left_nested(next) == SpecAst::Pipe(
                Box::new(left_nested(prefix)),
                Box::new(SpecAst::Command(c)),
            ));
            lemma_pipe_rest_left_nested(t, next, r);
            if let Some((cs, _)) = piped_commands(t, r) {
                assert(next + cs =~= prefix + (seq![c] + cs));
            }
        }
    } else {
        assert(prefix + seq![] =~= prefix);
    }
}

/// The pipeline parsed from `c0 | c1 | ... | cn` is nested to the left,
/// `((c0 | c1) | ...) | cn`, over its commands in the order they appear.
pub proof fn law_parsed_pipeline_nests_left(t: Seq<SpecToken>, p: nat)
    ensures
        parse_pipeline(t, p) matches Some((a, _)) ==> pipeline_commands(t, p) matches Some((cs, _))
            && a == left_nested(cs),
{
    if let Some((c, r)) = parse_command(t, p) {
        assert(left_nested(seq![c]) == SpecAst::Command(c));
        lemma_pipe_rest_left_nested(t, seq![c], r);
    }
}

impl Execute {
    /// The commands of a pipeline as a list, from left to right.
    ///
    /// `Pipe(Command(echo [hello]), Pipe(Command(grep [h]), Command(wc [-l])))`
    /// gives `[echo [hello], grep [h], wc [-l]]`.
    pub fn flatten(&self, ast: &AST) -> (r: Vec<Command>)
        ensures
            commands_view(r@) == leaves(ast@),
    {
        let mut cmds = Vec::new();
        self.flatten_into(ast, &mut cmds);
        assert(commands_view(cmds@) =~= seq![] + leaves(ast@));
        cmds
    }

    /// Appends the commands of `ast` to `out`, from left to right.
    fn flatten_into(&self, ast: &AST, out: &mut Vec<Command>)
        ensures
            commands_view(final(out)@) == commands_view(old(out)@) + leaves(ast@),
        decreases ast,
    {
        match ast {
            AST::Command(cmd) => {
                out.push(cmd.clone());
                assert(commands_view(out@) =~= commands_view(old(out)@) + seq![cmd@]);
            },
            AST::Pipe(left, right) => {
                self.flatten_into(left, out);
                self.flatten_into(right, out);
                assert(commands_view(out@) =~= commands_view(old(out)@) + (leaves((**left)@)
                    + leaves((**right)@)));
            },
        }
    }

    /// Decides how a list of commands is run: nothing for none, one child
    /// process for one command, two piped child processes for two. Longer
    /// lists are not supported.
    pub fn run_commands(&mut self, cmds: &mut Vec<Command>) -> (d: Dispatch)
        requires
            old(cmds).len() <= 2,
        ensures
            final(cmds)@ == old(cmds)@,
            d == dispatch_for(old(cmds).len() as nat),
    {
        match cmds.len() {
            0 => Dispatch::Nothing,
            1 => Dispatch::Execute,
            _ => Dispatch::PipeExecute,
        }
    }

    /// The program to run for `cmd` and its argument vector: the name, then
    /// the name again followed by the arguments.
    pub fn convert_args(cmd: &Command) -> (r: (String, Vec<String>))
        ensures
            r.0@ == cmd.name@,
            strings_view(r.1@) == seq![cmd.name@] + strings_view(cmd.args@),
    {
        let bin = cmd.name.clone();
        let mut args: Vec<String> = Vec::new();
        args.push(bin.clone());
        let n = cmd.args.len();
        for i in 0..n
            invariant
                n == cmd.args.len(),
                strings_view(args@) == seq![cmd.name@] + strings_view(cmd.args@.take(i as int)),
        {
            let ghost before = args@;
            args.push(cmd.args[i].clone());
            assert(strings_view(args@) =~= strings_view(before).push(cmd.args@[i as int]@));
            assert(strings_view(cmd.args@.take(i + 1)) =~= strings_view(cmd.args@.take(i as int)).push(
                cmd.args@[i as int]@,
            ));
            assert(cmd.args@.take(i + 1) =~= cmd.args@.take(i as int).push(cmd.args@[i as int]));
            assert(strings_view(args@) =~= seq![cmd.name@] + strings_view(cmd.args@.take(i + 1)));
        }
        assert(cmd.args@.take(n as int) =~= cmd.args@);
        (bin, args)
    }
}

} // verus!
