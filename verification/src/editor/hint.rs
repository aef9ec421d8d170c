//! The pending-state hint shown on the message line (vim's 'showcmd').

use vstd::prelude::*;

use crate::editing::commands::{FindKind, Op};

use super::{Awaiting, Pending};

verus! {

/// The key shown for a pending operator.
pub open spec fn op_key(op: Op) -> char {
    match op {
        Op::Delete => 'd',
        Op::Change => 'c',
        Op::Yank => 'y',
        Op::Indent => '>',
        Op::Dedent => '<',
    }
}

/// The keys shown for what a pending command awaits.
pub open spec fn awaiting_keys(a: Awaiting) -> Seq<char> {
    match a {
        Awaiting::Idle => seq![],
        Awaiting::Find(FindKind::To) => seq!['f'],
        Awaiting::Find(FindKind::ToBack) => seq!['F'],
        Awaiting::Find(FindKind::Till) => seq!['t'],
        Awaiting::Find(FindKind::TillBack) => seq!['T'],
        Awaiting::Replace => seq!['r'],
        Awaiting::G => seq!['g'],
        Awaiting::GComment => seq!['g', 'c'],
        Awaiting::SetMark => seq!['m'],
        Awaiting::JumpMark { exact } => seq![
            if exact {
                '`'
            } else {
                '\''
            },
        ],
        Awaiting::TextObject { around } => seq![
            if around {
                'a'
            } else {
                'n'
            },
        ],
        Awaiting::Z => seq!['z'],
        Awaiting::ZUpper => seq!['Z'],
        Awaiting::Leader => seq!['\u{2423}'],
        Awaiting::Window => seq!['^', 'W'],
        Awaiting::LeaderC => seq!['\u{2423}', 'c'],
        Awaiting::LeaderR => seq!['\u{2423}', 'r'],
        Awaiting::LeaderD => seq!['\u{2423}', 'd'],
    }
}

/// The pending-state hint (vim's 'showcmd'): first count, operator,
/// second count, then what is awaited.
pub open spec fn spec_pending_display(p: Pending) -> Seq<char> {
    (match p.count1 {
        Some(c) => crate::chars::dec(c as nat),
        None => seq![],
    }) + (match p.op {
        Some(op) => seq![op_key(op)],
        None => seq![],
    }) + (match p.count2 {
        Some(c) => crate::chars::dec(c as nat),
        None => seq![],
    }) + awaiting_keys(p.awaiting)
}

fn push_awaiting(s: &mut String, a: Awaiting)
    ensures
        final(s)@ == old(s)@ + awaiting_keys(a),
{
    let ghost s0 = s@;
    match a {
        Awaiting::Idle => {},
        Awaiting::Find(FindKind::To) => s.push('f'),
        Awaiting::Find(FindKind::ToBack) => s.push('F'),
        Awaiting::Find(FindKind::Till) => s.push('t'),
        Awaiting::Find(FindKind::TillBack) => s.push('T'),
        Awaiting::Replace => s.push('r'),
        Awaiting::G => s.push('g'),
        Awaiting::GComment => {
            s.push('g');
            s.push('c');
        },
        Awaiting::SetMark => s.push('m'),
        Awaiting::JumpMark { exact } => s.push(
            if exact {
                '`'
            } else {
                '\''
            },
        ),
        Awaiting::TextObject { around } => s.push(
            if around {
                'a'
            } else {
                'n'
            },
        ),
        Awaiting::Z => s.push('z'),
        Awaiting::ZUpper => s.push('Z'),
        Awaiting::Leader => s.push('\u{2423}'),
        Awaiting::Window => {
            s.push('^');
            s.push('W');
        },
        Awaiting::LeaderC => {
            s.push('\u{2423}');
            s.push('c');
        },
        Awaiting::LeaderR => {
            s.push('\u{2423}');
            s.push('r');
        },
        Awaiting::LeaderD => {
            s.push('\u{2423}');
            s.push('d');
        },
    }
    assert(s@ =~= s0 + awaiting_keys(a));
}

impl Pending {
    /// The compact pending-state hint for the message line.
    pub fn pending_display(&self) -> (s: String)
        ensures
            s@ == spec_pending_display(*self),
    {
        let mut s = String::new();
        let ghost s0 = s@;
        assert(s0 =~= Seq::<char>::empty());
        if let Some(c) = self.count1 {
            crate::chars::push_dec(&mut s, c as u128);
        }
        let ghost s1 = s@;
        match self.op {
            Some(Op::Delete) => s.push('d'),
            Some(Op::Change) => s.push('c'),
            Some(Op::Yank) => s.push('y'),
            Some(Op::Indent) => s.push('>'),
            Some(Op::Dedent) => s.push('<'),
            None => {},
        }
        let ghost s2 = s@;
        assert(s2 =~= s1 + (match self.op {
            Some(op) => seq![op_key(op)],
            None => seq![],
        }));
        if let Some(c) = self.count2 {
            crate::chars::push_dec(&mut s, c as u128);
        }
        push_awaiting(&mut s, self.awaiting);
        assert(s@ =~= spec_pending_display(*self));
        s
    }
}

} // verus!
