//! Loop prompts: the canary line, the self-check preamble and the crash-guard
//! block that every scheduled prompt carries.

use vstd::prelude::*;

use crate::letters;
use crate::package;
use crate::text;

verus! {

/// The self-check that leads every scheduled prompt, so that a fire is read as
/// "continue" and not as a new instruction.
pub const SELF_CHECK_PREAMBLE: &'static str = "THIS IS A SCHEDULED LOOP — self-check before acting. A loop fire is a SIGNAL TO CONTINUE, not a new instruction. FIRST read TaskList (and memory/checkpoint) as ground truth: if a task is in_progress continue it, else work the lowest-ID pending task; never restart finished work; verify state (build logs, deployed artifacts) before assuming an action is needed. Snapshot durable state (TaskUpdate / memory) before the fire ends in case compaction lands. Then:";

/// The line that a paused prompt ends with, unless it carries such a line
/// already.
pub const CANARY: &'static str = "\n\nNote: if you canceled or stopped this loop, you should NOT be seeing this message.";

/// What a prompt that was given the self-check declares, in lower case.
pub const DECLARATION: &'static str = "this is a scheduled loop";

/// The texts of the crash-guard block, around its two labels and the two
/// commands.
pub const GUARD_BLOCK_HEAD: &'static str = "LOOP CRASH-GUARD + PER-ITERATION CHECKPOINTING (enforced):\n- STEP 0 (before anything else): run `";

pub const GUARD_BLOCK_MIDDLE: &'static str = "`. If it prints \"action\":\"halt\" OR exits non-zero, the PREVIOUS fire did not complete — likely an API error. Do NOT continue: CronDelete this job and STOP, then report. (Deliberately re-arm later with `--reset`.)\n- HARD STOP on ANY API error this fire — ESPECIALLY a usage-policy / cybersecurity-classifier block. The instant you hit one, STOP: CronDelete this job and do not retry. Re-firing a blocked loop compounds the block and prevents the user from working. One API error = stop the loop, full stop.\n- LAST STEP (every fire, even idle ticks): pipe a short state summary into `";

pub const GUARD_BLOCK_TAIL: &'static str = " --note \"<one line: what changed>\"`. State is saved ADDITIVELY every iteration; never skip it.\n";

// ---- canary ---------------------------------------------------------------

/// Whether a prompt tells its reader that a cancelled or stopped loop should
/// not be seen any more.
pub open spec fn canary_present(prompt: Seq<char>) -> bool {
    (letters::mentions(prompt, "cancel"@) || letters::mentions(prompt, "stop"@))
        && letters::mentions(prompt, "should not"@) && letters::mentions(prompt, "see"@)
}

/// The prompt that a pause saves.
pub open spec fn with_canary(prompt: Seq<char>) -> Seq<char> {
    if canary_present(prompt) {
        prompt
    } else {
        prompt + CANARY@
    }
}

/// Whether `prompt` carries a canary line.
pub fn has_canary(prompt: &str) -> (r: bool)
    ensures
        r == canary_present(prompt@),
{
    proof {
        reveal_strlit("cancel");
        reveal_strlit("stop");
        reveal_strlit("should not");
        reveal_strlit("see");
    }
    (letters::mentions_phrase(prompt, "cancel") && letters::mentions_phrase(prompt, "should not")
        && letters::mentions_phrase(prompt, "see")) || (letters::mentions_phrase(prompt, "stop")
        && letters::mentions_phrase(prompt, "should not") && letters::mentions_phrase(prompt, "see"))
}

/// `prompt` with a canary line, and whether the line had to be added.
pub fn add_canary(prompt: &str) -> (r: (String, bool))
    ensures
        r.0@ == with_canary(prompt@),
        r.1 == !canary_present(prompt@),
{
    let mut out = String::from_str(prompt);
    if has_canary(prompt) {
        (out, false)
    } else {
        out.append(CANARY);
        (out, true)
    }
}

// ---- label ----------------------------------------------------------------

/// What stands before the first full stop or line feed.
pub open spec fn first_sentence(s: Seq<char>) -> Seq<char>
    decreases s.len(),
{
    if s.len() == 0 || s[0] == '.' || s[0] == '\n' {
        Seq::empty()
    } else {
        seq![s[0]] + first_sentence(s.drop_first())
    }
}

/// The label of a prompt that was given none: its first sentence, at most sixty
/// characters of it.
pub open spec fn inferred_label(prompt: Seq<char>) -> Seq<char> {
    text::first_chars(first_sentence(prompt), 60)
}

proof fn lemma_first_sentence(s: Seq<char>, k: int)
    requires
        0 <= k <= s.len(),
        forall|i: int| 0 <= i < k ==> s[i] != '.' && s[i] != '\n',
        k < s.len() ==> s[k] == '.' || s[k] == '\n',
    ensures
        first_sentence(s) == s.take(k),
    decreases k,
{
    if k == 0 {
        assert(s.take(0) =~= Seq::empty());
    } else {
        lemma_first_sentence(s.drop_first(), k - 1);
        assert(seq![s[0]] + s.drop_first().take(k - 1) =~= s.take(k));
    }
}

/// A short label from the first sentence of the prompt.
pub fn infer_label(prompt: &str) -> (r: String)
    ensures
        r@ == inferred_label(prompt@),
{
    let v = text::chars_of(prompt);
    let mut i: usize = 0;
    while i < v.len() && v[i] != '.' && v[i] != '\n'
        invariant
            i <= v@.len(),
            forall|k: int| 0 <= k < i ==> v@[k] != '.' && v@[k] != '\n',
        decreases v@.len() - i,
    {
        i = i + 1;
    }
    proof {
        lemma_first_sentence(v@, i as int);
    }
    let n: usize = if i < 60 { i } else { 60 };
    let r = text::string_of(&v, 0, n);
    assert(r@ =~= inferred_label(prompt@));
    r
}

// ---- self-check -----------------------------------------------------------

/// Whether a prompt declares itself a scheduled loop.
pub open spec fn declared(prompt: Seq<char>) -> bool {
    letters::mentions(prompt, DECLARATION@)
}

/// The prompt with the self-check before it.
pub open spec fn with_self_check(prompt: Seq<char>) -> Seq<char> {
    if declared(prompt) {
        text::trimmed(prompt)
    } else {
        SELF_CHECK_PREAMBLE@ + "\n\n"@ + text::trimmed(prompt)
    }
}

/// Whether `prompt` carries the self-check declaration.
pub fn already_prepped(prompt: &str) -> (r: bool)
    ensures
        r == declared(prompt@),
{
    proof {
        reveal_strlit("this is a scheduled loop");
    }
    letters::mentions_phrase(prompt, DECLARATION)
}

/// Puts the self-check before a prompt that does not carry it.
pub fn inject_self_check(prompt: &str) -> (r: String)
    ensures
        r@ == with_self_check(prompt@),
{
    let body = text::trim(prompt);
    if already_prepped(prompt) {
        body
    } else {
        let mut out = String::from_str(SELF_CHECK_PREAMBLE);
        out.append("\n\n");
        out.append(body.as_str());
        out
    }
}

// ---- crash guard ----------------------------------------------------------

/// The command by which a guarded prompt is recognised.
pub open spec fn guard_command() -> Seq<char> {
    package::named(""@, "-loop guard --label"@)
}

/// The crash-guard and checkpoint instructions for one loop.
pub open spec fn guard_text(label: Seq<char>) -> Seq<char> {
    GUARD_BLOCK_HEAD@ + guard_command() + " "@ + label + GUARD_BLOCK_MIDDLE@ + package::named(
        ""@,
        "-loop checkpoint --label "@,
    ) + label + GUARD_BLOCK_TAIL@
}

/// Whether a prompt carries crash-guard instructions, for whatever loop.
pub open spec fn guarded(prompt: Seq<char>) -> bool {
    text::has_text(prompt, guard_command())
}

/// The prompt with the crash-guard instructions before it.
pub open spec fn with_guard(prompt: Seq<char>, label: Seq<char>) -> Seq<char> {
    if guarded(prompt) {
        prompt
    } else {
        guard_text(label) + "\n"@ + prompt
    }
}

/// The crash-guard and checkpoint instructions for the loop `label`.
pub fn guard_block(label: &str) -> (r: String)
    ensures
        r@ == guard_text(label@),
{
    let mut out = String::from_str(GUARD_BLOCK_HEAD);
    out.append(package::name_in("", "-loop guard --label").as_str());
    out.append(" ");
    out.append(label);
    out.append(GUARD_BLOCK_MIDDLE);
    out.append(package::name_in("", "-loop checkpoint --label ").as_str());
    out.append(label);
    out.append(GUARD_BLOCK_TAIL);
    out
}

/// Whether `prompt` carries crash-guard instructions.
pub fn already_guarded(prompt: &str) -> (r: bool)
    ensures
        r == guarded(prompt@),
{
    text::contains(prompt, package::name_in("", "-loop guard --label").as_str())
}

/// Puts the crash-guard instructions before a prompt that carries none.
pub fn inject_guard(prompt: &str, label: &str) -> (r: String)
    ensures
        r@ == with_guard(prompt@, label@),
{
    if already_guarded(prompt) {
        String::from_str(prompt)
    } else {
        let mut out = guard_block(label);
        out.append("\n");
        out.append(prompt);
        out
    }
}

/// The prompt that is handed to the scheduler.
pub open spec fn prepared(prompt: Seq<char>, label: Option<Seq<char>>) -> Seq<char> {
    match label {
        Some(l) => with_guard(with_self_check(prompt), l),
        None => with_self_check(prompt),
    }
}

/// Prepares a loop prompt for scheduling: the self-check always, the crash guard
/// where the loop has a label. A blank prompt is refused.
pub fn prep(prompt: &str, label: Option<&str>) -> (r: Option<String>)
    ensures
        r is Some <==> text::trimmed(prompt@).len() > 0,
        r matches Some(out) ==> out@ == prepared(prompt@, text::opt(label)),
{
    if text::is_blank(prompt) {
        return None;
    }
    let out = inject_self_check(prompt);
    match label {
        Some(l) => Some(inject_guard(out.as_str(), l)),
        None => Some(out),
    }
}

// ---- laws -----------------------------------------------------------------

proof fn lemma_canary_line()
    ensures
        letters::mentions(CANARY@, "cancel"@),
        letters::mentions(CANARY@, "should not"@),
        letters::mentions(CANARY@, "see"@),
{
    reveal_strlit("\n\nNote: if you canceled or stopped this loop, you should NOT be seeing this message.");
    reveal_strlit("cancel");
    reveal_strlit("should not");
    reveal_strlit("see");
    letters::lemma_folded_ascii(CANARY@);
    let f = text::ascii_lowered(CANARY@);
    assert(f.subrange(15, 21) =~= "cancel"@);
    assert(text::is_at(f, 15, "cancel"@));
    assert(f.subrange(50, 60) =~= "should not"@);
    assert(text::is_at(f, 50, "should not"@));
    assert(f.subrange(64, 67) =~= "see"@);
    assert(text::is_at(f, 64, "see"@));
}

/// A prompt that a pause saved carries a canary line, so a second pause leaves
/// it as it is.
pub proof fn paused_prompt_has_canary(prompt: Seq<char>)
    ensures
        canary_present(with_canary(prompt)),
        with_canary(with_canary(prompt)) == with_canary(prompt),
{
    if !canary_present(prompt) {
        lemma_canary_line();
        let e = Seq::<char>::empty();
        assert(prompt + CANARY@ + e =~= with_canary(prompt));
        letters::lemma_mentions_in_whole(prompt, CANARY@, e, "cancel"@);
        letters::lemma_mentions_in_whole(prompt, CANARY@, e, "should not"@);
        letters::lemma_mentions_in_whole(prompt, CANARY@, e, "see"@);
    }
}

proof fn lemma_preamble_declares()
    ensures
        declared(SELF_CHECK_PREAMBLE@),
        SELF_CHECK_PREAMBLE@.len() > 0,
        !text::white(SELF_CHECK_PREAMBLE@[0]),
{
    reveal_strlit("THIS IS A SCHEDULED LOOP — self-check before acting. A loop fire is a SIGNAL TO CONTINUE, not a new instruction. FIRST read TaskList (and memory/checkpoint) as ground truth: if a task is in_progress continue it, else work the lowest-ID pending task; never restart finished work; verify state (build logs, deployed artifacts) before assuming an action is needed. Snapshot durable state (TaskUpdate / memory) before the fire ends in case compaction lands. Then:");
    reveal_strlit("this is a scheduled loop");
    let p = SELF_CHECK_PREAMBLE@;
    let head = p.take(24);
    let rest = p.skip(24);
    let e = Seq::<char>::empty();
    assert(e + head + rest =~= p);
    letters::lemma_folded_ascii(head);
    assert(text::ascii_lowered(head) =~= DECLARATION@);
    assert(letters::folded(head).subrange(0, 24) =~= DECLARATION@);
    assert(text::is_at(letters::folded(head), 0, DECLARATION@));
    letters::lemma_mentions_in_whole(e, head, rest, DECLARATION@);
}

proof fn lemma_declaration_visible()
    ensures
        DECLARATION@.len() > 0,
        !text::white(DECLARATION@[0]),
        !text::white(DECLARATION@.last()),
{
    reveal_strlit("this is a scheduled loop");
}

proof fn lemma_visible_ends(s: Seq<char>)
    requires
        s.len() > 0,
        !text::white(s[0]),
        !text::white(s.last()),
    ensures
        text::trimmed(s) == s,
{
}

proof fn lemma_self_check_shape(prompt: Seq<char>)
    requires
        text::trimmed(prompt).len() > 0,
    ensures
        declared(with_self_check(prompt)),
        with_self_check(prompt).len() > 0,
        !text::white(with_self_check(prompt)[0]),
        !text::white(with_self_check(prompt).last()),
{
    let t = text::trimmed(prompt);
    let (i, j) = text::lemma_trimmed_shape(prompt);
    assert(t[0] == prompt[i]);
    assert(t.last() == prompt[j - 1]);
    if declared(prompt) {
        lemma_declaration_visible();
        letters::lemma_mentions_trimmed(prompt, DECLARATION@);
    } else {
        lemma_preamble_declares();
        let e = Seq::<char>::empty();
        assert(e + SELF_CHECK_PREAMBLE@ + ("\n\n"@ + t) =~= with_self_check(prompt));
        letters::lemma_mentions_in_whole(e, SELF_CHECK_PREAMBLE@, "\n\n"@ + t, DECLARATION@);
    }
}

/// Giving a prompt the self-check twice is giving it once: preambles never
/// stack.
pub proof fn self_check_is_idempotent(prompt: Seq<char>)
    requires
        text::trimmed(prompt).len() > 0,
    ensures
        declared(with_self_check(prompt)),
        with_self_check(with_self_check(prompt)) == with_self_check(prompt),
{
    lemma_self_check_shape(prompt);
    lemma_visible_ends(with_self_check(prompt));
}

proof fn lemma_guard_text(label: Seq<char>)
    ensures
        guarded(guard_text(label)),
        guard_text(label).len() > 0,
        !text::white(guard_text(label)[0]),
{
    reveal_strlit("LOOP CRASH-GUARD + PER-ITERATION CHECKPOINTING (enforced):\n- STEP 0 (before anything else): run `");
    let command = guard_command();
    let rest = " "@ + label + GUARD_BLOCK_MIDDLE@ + package::named(
        ""@,
        "-loop checkpoint --label "@,
    ) + label + GUARD_BLOCK_TAIL@;
    assert(command.subrange(0, command.len() as int) =~= command);
    assert(text::is_at(command, 0, command));
    assert(GUARD_BLOCK_HEAD@ + command + rest =~= guard_text(label));
    text::lemma_has_text_in_whole(GUARD_BLOCK_HEAD@, command, rest, command);
}

/// A guarded prompt stays as it is, whatever label it is guarded with again.
pub proof fn guard_is_idempotent(prompt: Seq<char>, label: Seq<char>, other: Seq<char>)
    ensures
        guarded(with_guard(prompt, label)),
        with_guard(with_guard(prompt, label), other) == with_guard(prompt, label),
{
    if !guarded(prompt) {
        lemma_guard_text(label);
        let e = Seq::<char>::empty();
        assert(e + guard_text(label) + ("\n"@ + prompt) =~= with_guard(prompt, label));
        text::lemma_has_text_in_whole(e, guard_text(label), "\n"@ + prompt, guard_command());
    }
}

/// Preparing a prompt that was prepared changes nothing, with the same label or
/// another.
pub proof fn prep_is_idempotent(prompt: Seq<char>, label: Seq<char>, other: Option<Seq<char>>)
    requires
        text::trimmed(prompt).len() > 0,
    ensures
        prepared(prepared(prompt, Some(label)), other) == prepared(prompt, Some(label)),
        prepared(prepared(prompt, None), None) == prepared(prompt, None),
{
    let checked = with_self_check(prompt);
    let out = with_guard(checked, label);
    lemma_self_check_shape(prompt);
    self_check_is_idempotent(prompt);
    guard_is_idempotent(checked, label, label);
    if !guarded(checked) {
        lemma_guard_text(label);
        let e = Seq::<char>::empty();
        assert((guard_text(label) + "\n"@) + checked + e =~= out);
        letters::lemma_mentions_in_whole(guard_text(label) + "\n"@, checked, e, DECLARATION@);
        assert(out[0] == guard_text(label)[0]);
        assert(out.last() == checked.last());
    }
    lemma_visible_ends(out);
    if other is Some {
        guard_is_idempotent(checked, label, other->0);
    }
}

/// A prompt has a canary line where its lower case speaks of what should not be
/// seen once it is cancelled or stopped; without one it gets one, behind all that
/// it says.
pub proof fn canary_is_added_where_missing(prompt: Seq<char>)
    ensures
        ({
            let low = letters::folded(prompt);
            let carries = (text::has_text(low, "cancel"@) || text::has_text(low, "stop"@))
                && text::has_text(low, "should not"@) && text::has_text(low, "see"@);
            &&& canary_present(prompt) <==> carries
            &&& with_canary(prompt) == if carries {
                prompt
            } else {
                prompt
                    + "\n\nNote: if you canceled or stopped this loop, you should NOT be seeing this message."@
            }
        }),
{
}

/// The label of a prompt is what stands before its first full stop or line feed,
/// and no more than sixty characters of it.
pub proof fn label_is_the_first_sentence(prompt: Seq<char>, k: int)
    requires
        0 <= k <= prompt.len(),
        forall|i: int| 0 <= i < k ==> #[trigger] prompt[i] != '.' && prompt[i] != '\n',
        k < prompt.len() ==> prompt[k] == '.' || prompt[k] == '\n',
    ensures
        inferred_label(prompt) == prompt.take(
            if k < 60 {
                k
            } else {
                60
            },
        ),
{
    lemma_first_sentence(prompt, k);
    assert(inferred_label(prompt) =~= prompt.take(
        if k < 60 {
            k
        } else {
            60
        },
    ));
}

/// Whatever is put before a prompt, what it says stays, at the end, without the
/// blanks around it; one that does not declare itself a scheduled loop gets the
/// self-check, and one with a label and no crash guard gets that too.
pub proof fn prompts_are_kept(prompt: Seq<char>, label: Seq<char>)
    ensures
        ({
            let low = letters::folded(prompt);
            let says = text::trimmed(prompt);
            let bare = prepared(prompt, None);
            let full = prepared(prompt, Some(label));
            &&& text::has_text(low, "this is a scheduled loop"@) ==> bare == says
            &&& !text::has_text(low, "this is a scheduled loop"@) ==> bare == SELF_CHECK_PREAMBLE@
                + "\n\n"@ + says
            &&& text::has_text(bare, package::named(""@, "-loop guard --label"@)) ==> full == bare
            &&& !text::has_text(bare, package::named(""@, "-loop guard --label"@)) ==> full
                == guard_text(label) + "\n"@ + bare
        }),
{
}

/// The crash guard names the loop it is for, in the command that begins a fire
/// and in the one that ends it.
pub proof fn guard_names_its_loop(label: Seq<char>)
    ensures
        text::has_text(guard_text(label), package::named(""@, "-loop guard --label"@) + " "@ + label),
        text::has_text(
            guard_text(label),
            package::named(""@, "-loop checkpoint --label "@) + label,
        ),
{
    let first = package::named(""@, "-loop guard --label"@) + " "@ + label;
    let last = package::named(""@, "-loop checkpoint --label "@) + label;
    let a = GUARD_BLOCK_HEAD@;
    let b = GUARD_BLOCK_MIDDLE@ + last + GUARD_BLOCK_TAIL@;
    assert(guard_text(label) =~= a + first + b);
    assert((a + first + b).subrange(a.len() as int, (a.len() + first.len()) as int) =~= first);
    assert(text::is_at(guard_text(label), a.len() as int, first));
    let c = a + first + GUARD_BLOCK_MIDDLE@;
    assert(guard_text(label) =~= c + last + GUARD_BLOCK_TAIL@);
    assert((c + last + GUARD_BLOCK_TAIL@).subrange(
        c.len() as int,
        (c.len() + last.len()) as int,
    ) =~= last);
    assert(text::is_at(guard_text(label), c.len() as int, last));
}

} // verus!
