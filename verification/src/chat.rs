//! Conversation state and prompt assembly: the chat history, the grounding
//! prompt built from a query, retrieved context and recent exchanges, and
//! the canned fallback replies used when the generation runtime is down.

use vstd::prelude::*;
use vstd::string::StrSliceExecFns;
use vstd::string::StringExecFns;
use vstd::string::StringSliceAdditionalSpecFns;
use crate::chars::{decimal_spec, usize_to_string, push_char};
use crate::SCALE;
use crate::similarity::clamp_scale;

verus! {

/// One message of the conversation.
#[derive(Debug, Clone)]
pub struct ChatMessage {
    /// Caller-assigned unique identifier.
    pub id: String,
    /// The message text.
    pub content: String,
    /// Who spoke: `user` or `assistant`.
    pub role: String,
    /// Caller-supplied timestamp.
    pub timestamp: String,
}

/// The assistant's reply together with the context that grounded it.
#[derive(Debug, Clone)]
pub struct ChatResponse {
    /// The assistant message.
    pub message: ChatMessage,
    /// Human-readable descriptions of the context passages used.
    pub context_used: Vec<String>,
}

/// Mathematical image of a chat message.
pub ghost struct MsgV {
    pub id: Seq<char>,
    pub content: Seq<char>,
    pub role: Seq<char>,
    pub timestamp: Seq<char>,
}

impl View for ChatMessage {
    type V = MsgV;

    open spec fn view(&self) -> MsgV {
        MsgV { id: self.id@, content: self.content@, role: self.role@, timestamp: self.timestamp@ }
    }
}

/// The numbered context blocks of the prompt, for the first `k` passages.
pub open spec fn ctx_blocks(ctx: Seq<Seq<char>>, k: int) -> Seq<char>
    decreases k,
{
    if k <= 0 {
        Seq::empty()
    } else {
        ctx_blocks(ctx, k - 1) + "Context "@ + decimal_spec(k as nat) + ":\n"@ + ctx[k - 1]
            + "\n\n"@
    }
}

/// The replayed conversation lines of the prompt, for the first `k` messages
/// of the replayed tail.
pub open spec fn hist_blocks(tail: Seq<MsgV>, k: int) -> Seq<char>
    decreases k,
{
    if k <= 0 {
        Seq::empty()
    } else {
        hist_blocks(tail, k - 1) + tail[k - 1].role + ": "@ + tail[k - 1].content + "\n"@
    }
}

/// The tail of the history that the prompt replays: the last six messages.
pub open spec fn replayed_tail(h: Seq<MsgV>) -> Seq<MsgV> {
    if h.len() > 6 {
        h.skip(h.len() - 6)
    } else {
        h
    }
}

/// The grounding prompt: a fixed role preamble; the numbered context
/// passages, when any were retrieved; the recent conversation, when one
/// exists; and the user's question with a closing instruction.
pub open spec fn prompt_spec(h: Seq<MsgV>, query: Seq<char>, ctx: Seq<Seq<char>>) -> Seq<char> {
    let intro =
        "You are a helpful assistant specializing in the game Vintage Story. You provide accurate, detailed information based on the game's wiki and mechanics.\n\n"@;
    let ctx_part = if ctx.len() > 0 {
        "Here is relevant information from the Vintage Story wiki:\n\n"@ + ctx_blocks(
            ctx,
            ctx.len() as int,
        ) + "Based on the above context, "@
    } else {
        Seq::empty()
    };
    let hist_part = if h.len() > 1 {
        "Previous conversation:\n"@ + hist_blocks(
            replayed_tail(h),
            replayed_tail(h).len() as int,
        ) + "\n"@
    } else {
        Seq::empty()
    };
    intro + ctx_part + hist_part + "User question: "@ + query + "\n\n"@
        + "Assistant: Please provide a helpful and accurate response. If you have relevant context from the wiki, use it to give specific information. If you don't have specific information, provide general guidance about Vintage Story."@
}

/// A context passage as it is spliced into the prompt: its source title,
/// then its text.
pub fn format_context_text(title: &str, content: &str) -> (r: String)
    ensures
        r@ == "Source: "@ + title@ + "\n"@ + content@,
{
    let mut r = "Source: ".to_owned();
    r.append(title);
    r.append("\n");
    r.append(content);
    proof {
        assert(r@ =~= "Source: "@ + title@ + "\n"@ + content@);
    }
    r
}

/// A context passage as it is reported back to the caller: its source title
/// and its fixed-point similarity score, clamped into `[-SCALE, SCALE]`.
pub fn format_context_source(title: &str, score: i64) -> (r: String)
    ensures
        r@ == title@ + " (score: "@ + (if clamp_scale(score as int) < 0 {
            seq!['-'] + decimal_spec((-clamp_scale(score as int)) as nat)
        } else {
            decimal_spec(clamp_scale(score as int) as nat)
        }) + ")"@,
{
    let clamped: i64 = if score > SCALE {
        SCALE
    } else if score < -SCALE {
        -SCALE
    } else {
        score
    };
    let mut r = title.to_owned();
    r.append(" (score: ");
    let ghost before_digits = r@;
    if clamped < 0 {
        push_char(&mut r, '-');
        let digits = usize_to_string((-clamped) as usize);
        r.append(digits.as_str());
        proof {
            assert(r@ =~= before_digits + (seq!['-'] + decimal_spec(
                (-clamp_scale(score as int)) as nat,
            )));
        }
    } else {
        let digits = usize_to_string(clamped as usize);
        r.append(digits.as_str());
    }
    r.append(")");
    proof {
        assert(r@ =~= title@ + " (score: "@ + (if clamp_scale(score as int) < 0 {
            seq!['-'] + decimal_spec((-clamp_scale(score as int)) as nat)
        } else {
            decimal_spec(clamp_scale(score as int) as nat)
        }) + ")"@);
    }
    r
}

/// The chat conversation state.
pub struct ChatService {
    conversation_history: Vec<ChatMessage>,
}

impl ChatService {
    /// The conversation so far.
    pub closed spec fn history(self) -> Seq<MsgV> {
        self.conversation_history@.map_values(|m: ChatMessage| m@)
    }

    /// A fresh conversation.
    pub fn new() -> (r: ChatService)
        ensures
            r.history().len() == 0,
    {
        let r = ChatService { conversation_history: Vec::new() };
        proof {
            assert(r.history() =~= Seq::<MsgV>::empty());
        }
        r
    }

    /// Appends a message to the conversation.
    pub fn push_message(&mut self, m: ChatMessage)
        ensures
            final(self).history() == old(self).history().push(m@),
    {
        let ghost mv = m@;
        self.conversation_history.push(m);
        proof {
            assert(self.history() =~= old(self).history().push(mv));
        }
    }

    /// The messages exchanged so far.
    pub fn get_conversation_history(&self) -> (r: &Vec<ChatMessage>)
        ensures
            r@.map_values(|m: ChatMessage| m@) == self.history(),
    {
        &self.conversation_history
    }

    /// Forgets the conversation.
    pub fn clear_history(&mut self)
        ensures
            final(self).history().len() == 0,
    {
        self.conversation_history.clear();
        proof {
            assert(self.history() =~= Seq::<MsgV>::empty());
        }
    }

    /// Builds the grounding prompt for a query and its retrieved context
    /// per [`prompt_spec`].
    pub fn build_prompt(&self, query: &str, context: &Vec<String>) -> (r: String)
        ensures
            r@ == prompt_spec(self.history(), query@, context@.map_values(|s: String| s@)),
    {
        let ghost ctx = context@.map_values(|s: String| s@);
        let ghost h = self.history();
        let mut prompt =
            "You are a helpful assistant specializing in the game Vintage Story. You provide accurate, detailed information based on the game's wiki and mechanics.\n\n".to_owned();
        let ghost intro = prompt@;
        if context.len() > 0 {
            prompt.append("Here is relevant information from the Vintage Story wiki:\n\n");
            let ghost base = prompt@;
            let mut i: usize = 0;
            proof {
                assert(prompt@ =~= base + ctx_blocks(ctx, 0));
            }
            while i < context.len()
                invariant
                    ctx == context@.map_values(|s: String| s@),
                    i <= context@.len(),
                    prompt@ == base + ctx_blocks(ctx, i as int),
                decreases context@.len() - i,
            {
                prompt.append("Context ");
                let num = usize_to_string(i + 1);
                prompt.append(num.as_str());
                prompt.append(":\n");
                prompt.append(context[i].as_str());
                prompt.append("\n\n");
                proof {
                    assert(ctx[i as int] == context@[i as int]@);
                    assert(prompt@ =~= base + ctx_blocks(ctx, i as int + 1));
                }
                i = i + 1;
            }
            prompt.append("Based on the above context, ");
        }
        let ghost after_ctx = prompt@;
        if self.conversation_history.len() > 1 {
            prompt.append("Previous conversation:\n");
            let ghost base2 = prompt@;
            let start = if self.conversation_history.len() > 6 {
                self.conversation_history.len() - 6
            } else {
                0
            };
            let ghost tail = replayed_tail(h);
            proof {
                assert(tail.len() == h.len() - start);
                assert(forall|t: int| 0 <= t < tail.len() ==> tail[t] == h[start + t]);
            }
            let mut j: usize = 0;
            proof {
                assert(prompt@ =~= base2 + hist_blocks(tail, 0));
            }
            while j < self.conversation_history.len() - start
                invariant
                    h == self.history(),
                    tail == replayed_tail(h),
                    start == if h.len() > 6 {
                        h.len() - 6
                    } else {
                        0int
                    },
                    tail.len() == h.len() - start,
                    forall|t: int| 0 <= t < tail.len() ==> tail[t] == h[start + t],
                    j <= tail.len(),
                    prompt@ == base2 + hist_blocks(tail, j as int),
                decreases self.conversation_history@.len() - start - j,
            {
                let m = &self.conversation_history[start + j];
                prompt.append(m.role.as_str());
                prompt.append(": ");
                prompt.append(m.content.as_str());
                prompt.append("\n");
                proof {
                    assert(h[start + j] == self.conversation_history@[start + j]@);
                    assert(tail[j as int].role == m.role@ && tail[j as int].content == m.content@);
                    assert(prompt@ =~= base2 + hist_blocks(tail, j as int + 1));
                }
                j = j + 1;
            }
            prompt.append("\n");
        }
        prompt.append("User question: ");
        prompt.append(query);
        prompt.append("\n\n");
        prompt.append(
            "Assistant: Please provide a helpful and accurate response. If you have relevant context from the wiki, use it to give specific information. If you don't have specific information, provide general guidance about Vintage Story.",
        );
        proof {
            assert(prompt@ =~= prompt_spec(h, query@, ctx));
        }
        prompt
    }

    /// The canned reply used when generation fails, picked by the query's
    /// byte length.
    pub fn generate_fallback_response(&self, query: &str) -> (r: String)
        ensures
            r@ == if (query.spec_bytes().len() as usize) % 3 == 0 {
                "I'm experiencing some technical difficulties connecting to the AI service. Could you please try again in a moment?"@
            } else if (query.spec_bytes().len() as usize) % 3 == 1 {
                "I apologize, but I'm having trouble processing your request right now. Please try again shortly."@
            } else {
                "The AI service is temporarily unavailable. In the meantime, you might want to check the Vintage Story wiki directly."@
            },
    {
        let idx = query.len() % 3;
        if idx == 0 {
            "I'm experiencing some technical difficulties connecting to the AI service. Could you please try again in a moment?".to_owned()
        } else if idx == 1 {
            "I apologize, but I'm having trouble processing your request right now. Please try again shortly.".to_owned()
        } else {
            "The AI service is temporarily unavailable. In the meantime, you might want to check the Vintage Story wiki directly.".to_owned()
        }
    }
}

} // verus!
