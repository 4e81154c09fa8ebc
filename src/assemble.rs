//! Assembly of the final document.
use vstd::prelude::*;
use crate::text::{chars_of, string_of, append_chars};
use crate::walk::{FileBlock, blocks_view};

verus! {

/// The text of one file block: a header naming the path, then the content
/// between fence lines.
pub open spec fn block_text(path: Seq<char>, content: Seq<char>) -> Seq<char> {
    "File: "@ + path + seq!['\n'] + "```\n"@ + content + seq!['\n'] + "```\n"@
}

/// The blocks' texts one after another.
pub open spec fn blocks_text(b: Seq<(Seq<char>, Seq<char>)>) -> Seq<char>
    decreases b.len(),
{
    if b.len() == 0 {
        Seq::empty()
    } else {
        blocks_text(b.drop_last()) + block_text(b.last().0, b.last().1)
    }
}

/// The document: the introduction, a line break, the tree, a blank line, the
/// file blocks in their order, and the goal line.
pub open spec fn document(
    intro: Seq<char>,
    tree: Seq<char>,
    blocks: Seq<(Seq<char>, Seq<char>)>,
    goal: Seq<char>,
) -> Seq<char> {
    intro + seq!['\n'] + tree + seq!['\n'] + blocks_text(blocks) + "Specific Goal: "@ + goal + seq![
        '\n',
    ]
}

/// Concatenates the parts of the prompt document in their fixed order.
pub fn assemble(intro: &str, tree: &str, blocks: &Vec<FileBlock>, goal: &str) -> (r: String)
    ensures
        r@ == document(intro@, tree@, blocks_view(blocks@), goal@),
{
    let mut out = chars_of(intro);
    out.push('\n');
    append_chars(&mut out, &chars_of(tree));
    out.push('\n');
    let ghost head = out@;
    let header = chars_of("File: ");
    let fence = chars_of("```\n");
    let mut i: usize = 0;
    while i < blocks.len()
        invariant
            i <= blocks.len(),
            header@ == "File: "@,
            fence@ == "```\n"@,
            out@ == head + blocks_text(blocks_view(blocks@).take(i as int)),
        decreases blocks.len() - i,
    {
        assert(blocks_view(blocks@).take(i + 1).drop_last() =~= blocks_view(blocks@).take(i as int));
        let ghost before = out@;
        let b = &blocks[i];
        append_chars(&mut out, &header);
        append_chars(&mut out, &chars_of(b.path.as_str()));
        out.push('\n');
        append_chars(&mut out, &fence);
        append_chars(&mut out, &chars_of(b.content.as_str()));
        out.push('\n');
        append_chars(&mut out, &fence);
        assert(out@ =~= before + block_text(b.path@, b.content@));
        i = i + 1;
    }
    assert(blocks_view(blocks@).take(i as int) =~= blocks_view(blocks@));
    append_chars(&mut out, &chars_of("Specific Goal: "));
    append_chars(&mut out, &chars_of(goal));
    out.push('\n');
    assert(out@ =~= document(intro@, tree@, blocks_view(blocks@), goal@));
    string_of(&out)
}

} // verus!
