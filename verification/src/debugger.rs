use vstd::prelude::*;
use vstd::string::{StrSliceExecFns, StringExecFns};
use crate::utils::text::{split_on, lemma_split_at_separator, lemma_split_component, lemma_split_not_empty};

verus! {

/// What the debug shell does for a command line.
pub enum DebugAction {
    /// `meminfo alloc`: print the physical and virtual memory handed out
    ShowAllocatedMemory,
    /// `meminfo virtual`: print the free regions of the kernel address space
    ShowVirtualMemory,
    /// `meminfo physical`: print the physical allocator's state
    ShowPhysicalMemory,
    /// `meminfo map`: print the memory map
    ShowMemoryMap,
    /// `cpuinfo regs`: print the control registers and the descriptor table's address
    ShowRegisters,
    /// An argument that `meminfo` or `cpuinfo` does not know
    UnrecognizedArgument(String),
    /// A command the shell does not know
    UnrecognizedCommand(String),
}

/// The words of a command line: its pieces between spaces, empty ones included.
pub open spec fn command_words(command: Seq<char>) -> Seq<Seq<char>> {
    split_on(command, ' ')
}

/// The action for the words of a command line: the first word names the command, the second
/// its argument.
pub open spec fn is_action_for(words: Seq<Seq<char>>, action: DebugAction) -> bool {
    let meminfo = seq!['m', 'e', 'm', 'i', 'n', 'f', 'o'];
    let cpuinfo = seq!['c', 'p', 'u', 'i', 'n', 'f', 'o'];
    if words[0] == meminfo {
        let arg = words[1];
        if arg == seq!['a', 'l', 'l', 'o', 'c'] {
            action is ShowAllocatedMemory
        } else if arg == seq!['v', 'i', 'r', 't', 'u', 'a', 'l'] {
            action is ShowVirtualMemory
        } else if arg == seq!['p', 'h', 'y', 's', 'i', 'c', 'a', 'l'] {
            action is ShowPhysicalMemory
        } else if arg == seq!['m', 'a', 'p'] {
            action is ShowMemoryMap
        } else {
            action matches DebugAction::UnrecognizedArgument(a) && a@ == arg
        }
    } else if words[0] == cpuinfo {
        let arg = words[1];
        if arg == seq!['r', 'e', 'g', 's'] {
            action is ShowRegisters
        } else {
            action matches DebugAction::UnrecognizedArgument(a) && a@ == arg
        }
    } else {
        action matches DebugAction::UnrecognizedCommand(c) && c@ == words[0]
    }
}

/// The index of the first space at or after `from`, or the length of `s`.
fn next_space(s: &str, from: usize) -> (r: usize)
    requires
        from <= s@.len(),
    ensures
        from <= r <= s@.len(),
        forall|k: int| from <= k < r ==> s@[k] != ' ',
        r < s@.len() ==> s@[r as int] == ' ',
{
    let n = s.unicode_len();
    let mut i = from;
    while i < n
        invariant
            n == s@.len(),
            from <= i <= n,
            forall|k: int| from <= k < i ==> s@[k] != ' ',
        decreases n - i,
    {
        if s.get_char(i) == ' ' {
            return i;
        }
        i = i + 1;
    }
    i
}

/// Decides what the debug shell does for `command`: `meminfo` and `cpuinfo` act on their
/// argument, anything else is not recognized. Those two commands need an argument.
pub fn run_command(command: &str) -> (r: DebugAction)
    requires
        (command_words(command@)[0] == seq!['m', 'e', 'm', 'i', 'n', 'f', 'o'] || command_words(command@)[0]
            == seq!['c', 'p', 'u', 'i', 'n', 'f', 'o']) ==> command_words(command@).len() >= 2,
    ensures
        is_action_for(command_words(command@), r),
{
    let n = command.unicode_len();
    let first_end = next_space(command, 0);
    let ghost s = command@;
    proof {
        assert(s.subrange(0, s.len() as int) =~= s);
        lemma_split_component(s, 0, first_end as int, ' ');
        lemma_split_not_empty(s, ' ');
        if first_end < n {
            lemma_split_at_separator(s, first_end as int, ' ');
            assert(s.subrange(first_end as int, s.len() as int).drop_first() =~= s.subrange(first_end + 1, s.len() as int));
        } else {
            assert(s.subrange(n as int, n as int) =~= Seq::<char>::empty());
            assert(split_on(Seq::<char>::empty(), ' ') =~= seq![Seq::<char>::empty()]);
        }
    }
    let command_name = String::from_str(command.substring_char(0, first_end));
    assert(command_name@ == command_words(command@)[0]);
    let meminfo = String::from_str("meminfo");
    let cpuinfo = String::from_str("cpuinfo");
    proof {
        reveal_strlit("meminfo");
        reveal_strlit("cpuinfo");
        assert("meminfo"@ =~= seq!['m', 'e', 'm', 'i', 'n', 'f', 'o']);
        assert("cpuinfo"@ =~= seq!['c', 'p', 'u', 'i', 'n', 'f', 'o']);
    }
    let is_meminfo = command_name == meminfo;
    let is_cpuinfo = command_name == cpuinfo;
    if !is_meminfo && !is_cpuinfo {
        return DebugAction::UnrecognizedCommand(command_name);
    }
    // The argument: the second word
    assert(first_end < n);
    let argument_end = next_space(command, first_end + 1);
    proof {
        let whole = split_on(s, ' ');
        let after = split_on(s.subrange(first_end as int, s.len() as int), ' ');
        assert(whole.drop_first() == after.drop_first());
        assert(whole[1] == whole.drop_first()[0]);
        assert(after == seq![Seq::<char>::empty()] + split_on(s.subrange(first_end + 1, s.len() as int), ' '));
        assert(after.drop_first()[0] == after[1]);
        lemma_split_component(s, first_end + 1, argument_end as int, ' ');
        if argument_end < n {
            lemma_split_at_separator(s, argument_end as int, ' ');
        } else {
            assert(s.subrange(n as int, n as int) =~= Seq::<char>::empty());
            assert(split_on(Seq::<char>::empty(), ' ') =~= seq![Seq::<char>::empty()]);
        }
        assert(command_words(command@)[1] == split_on(s.subrange(first_end + 1, s.len() as int), ' ')[0]);
    }
    let argument = String::from_str(command.substring_char(first_end + 1, argument_end));
    assert(argument@ == command_words(command@)[1]);
    if is_meminfo {
        let alloc = String::from_str("alloc");
        let virtual_ = String::from_str("virtual");
        let physical = String::from_str("physical");
        let map = String::from_str("map");
        proof {
            reveal_strlit("alloc");
            reveal_strlit("virtual");
            reveal_strlit("physical");
            reveal_strlit("map");
            assert("alloc"@ =~= seq!['a', 'l', 'l', 'o', 'c']);
            assert("virtual"@ =~= seq!['v', 'i', 'r', 't', 'u', 'a', 'l']);
            assert("physical"@ =~= seq!['p', 'h', 'y', 's', 'i', 'c', 'a', 'l']);
            assert("map"@ =~= seq!['m', 'a', 'p']);
        }
        if argument == alloc {
            DebugAction::ShowAllocatedMemory
        } else if argument == virtual_ {
            DebugAction::ShowVirtualMemory
        } else if argument == physical {
            DebugAction::ShowPhysicalMemory
        } else if argument == map {
            DebugAction::ShowMemoryMap
        } else {
            DebugAction::UnrecognizedArgument(argument)
        }
    } else {
        let regs = String::from_str("regs");
        proof {
            reveal_strlit("regs");
            assert("regs"@ =~= seq!['r', 'e', 'g', 's']);
        }
        if argument == regs {
            DebugAction::ShowRegisters
        } else {
            DebugAction::UnrecognizedArgument(argument)
        }
    }
}

} // verus!
