//! The text of the report message: who it is from and for, and its body.

use crate::text::{decimal_digits, decimal_string};
use lettre::message::Mailbox;
use vstd::prelude::*;
use vstd::string::*;

verus! {

/// Which address of a message template is no mailbox.
#[derive(Clone, Copy, Debug, PartialEq, Eq, Structural)]
pub enum AddressError {
    /// The recipient's address.
    Recipient,
    /// The sender's address.
    Sender,
}

/// Who a report is from and for.
pub struct MessageTemplate {
    pub domain: String,
    pub recipient: String,
    pub sender: String,
}

/// Whether the `lettre` crate reads the text as a mailbox: an address,
/// alone or after a display name.
pub uninterp spec fn is_mailbox(text: Seq<char>) -> bool;

/// Asks whether a text is a mailbox.
///
/// Trusted: calls `Mailbox::from_str` of the `lettre` crate through
/// `str::parse`. The contract only names the result.
#[verifier::external_body]
fn parses_as_mailbox(text: &str) -> (ok: bool)
    ensures
        ok == is_mailbox(text@),
{
    text.parse::<Mailbox>().is_ok()
}

/// The address of a user at a domain.
pub open spec fn address_at(user: Seq<char>, domain: Seq<char>) -> Seq<char> {
    user + "@"@ + domain
}

/// The name under which an image is attached: `image` and its number.
pub open spec fn content_id_text(index: nat) -> Seq<char> {
    "image"@ + decimal_digits(index)
}

/// The tag that shows the attached image with the given number.
pub open spec fn image_tag(index: nat, alt: Seq<char>) -> Seq<char> {
    "<img src=\"cid:"@ + content_id_text(index) + "\" alt=\""@ + alt + "\" />"@
}

/// The tags of all images, numbered from zero, one after the other.
pub open spec fn image_tags(alts: Seq<String>) -> Seq<char>
    decreases alts.len(),
{
    if alts.len() == 0 {
        Seq::empty()
    } else {
        image_tags(alts.drop_last()) + image_tag((alts.len() - 1) as nat, alts.last()@)
    }
}

/// The lines as list items, joined by line breaks.
pub open spec fn list_items(lines: Seq<String>) -> Seq<char>
    decreases lines.len(),
{
    if lines.len() == 0 {
        Seq::empty()
    } else if lines.len() == 1 {
        "<li>"@ + lines[0]@ + "</li>"@
    } else {
        list_items(lines.drop_last()) + "\n"@ + ("<li>"@ + lines.last()@ + "</li>"@)
    }
}

/// The body of the report: a sentence that names the domain, the images,
/// and the lines of text as an unstyled list.
pub open spec fn body_text(domain: Seq<char>, alts: Seq<String>, lines: Seq<String>) -> Seq<char> {
    "\n        <html>\n        <body>\n            <p>Here are the spam statistics for "@ + domain
        + ".</p>\n            "@ + image_tags(alts) + "\n            "@
        + "<ul style=\"list-style-type:none;\">"@ + list_items(lines) + "</ul>"@
        + "\n        </body>\n        </html>\n        "@
}

/// The name under which the image with the given number is attached.
pub fn content_id(index: usize) -> (cid: String)
    ensures
        cid@ == content_id_text(index as nat),
{
    let mut cid: String = String::from_str("image");
    cid.append(decimal_string(index).as_str());
    cid
}

/// Whether `outcome` is what the two addresses of a template give, once it
/// is known whether each is a mailbox: the template if both are, else the
/// error for the first that is not, the recipient's being looked at first.
pub open spec fn is_template(
    domain: String,
    recipient: Seq<char>,
    sender: Seq<char>,
    recipient_is_mailbox: bool,
    sender_is_mailbox: bool,
    outcome: Result<MessageTemplate, AddressError>,
) -> bool {
    match outcome {
        Ok(template) => {
            &&& recipient_is_mailbox
            &&& sender_is_mailbox
            &&& template.domain == domain
            &&& template.recipient@ == recipient
            &&& template.sender@ == sender
        },
        Err(AddressError::Recipient) => !recipient_is_mailbox,
        Err(AddressError::Sender) => recipient_is_mailbox && !sender_is_mailbox,
    }
}

impl MessageTemplate {
    /// The template with the given addresses, if both were found to be
    /// mailboxes.
    pub fn checked(
        domain: String,
        recipient: String,
        sender: String,
        recipient_is_mailbox: bool,
        sender_is_mailbox: bool,
    ) -> (r: Result<MessageTemplate, AddressError>)
        ensures
            is_template(domain, recipient@, sender@, recipient_is_mailbox, sender_is_mailbox, r),
    {
        if !recipient_is_mailbox {
            Err(AddressError::Recipient)
        } else if !sender_is_mailbox {
            Err(AddressError::Sender)
        } else {
            Ok(MessageTemplate { domain, recipient, sender })
        }
    }

    /// A template for reports on `domain`, sent from `spam-stats` at that
    /// domain to the given user there. Fails when one of the two addresses
    /// is no mailbox, the recipient's being looked at first.
    pub fn new(domain: String, recipient_username: String) -> (r: Result<
        MessageTemplate,
        AddressError,
    >)
        ensures
            is_template(
                domain,
                address_at(recipient_username@, domain@),
                address_at("spam-stats"@, domain@),
                is_mailbox(address_at(recipient_username@, domain@)),
                is_mailbox(address_at("spam-stats"@, domain@)),
                r,
            ),
    {
        let mut recipient: String = recipient_username;
        recipient.append("@");
        recipient.append(domain.as_str());
        let mut sender: String = String::from_str("spam-stats");
        sender.append("@");
        sender.append(domain.as_str());
        let recipient_is_mailbox: bool = parses_as_mailbox(recipient.as_str());
        let sender_is_mailbox: bool = parses_as_mailbox(sender.as_str());
        MessageTemplate::checked(domain, recipient, sender, recipient_is_mailbox, sender_is_mailbox)
    }

    /// The body of the report as HTML: the images by their alternative
    /// texts, in the order in which they are attached, and the lines of
    /// text.
    pub fn html_body(&self, alts: &Vec<String>, lines: &Vec<String>) -> (body: String)
        ensures
            body@ == body_text(self.domain@, alts@, lines@),
    {
        let mut images: String = String::new();
        let mut n: usize = 0;
        while n < alts.len()
            invariant
                n <= alts.len(),
                images@ == image_tags(alts@.take(n as int)),
            decreases alts.len() - n,
        {
            let ghost before = images@;
            images.append("<img src=\"cid:");
            images.append(content_id(n).as_str());
            images.append("\" alt=\"");
            images.append(alts[n].as_str());
            images.append("\" />");
            proof {
                let now = alts@.take(n + 1);
                assert(now.drop_last() =~= alts@.take(n as int));
                assert(now.last() == alts@[n as int]);
                assert(images@ =~= before + image_tag(n as nat, alts@[n as int]@));
            }
            n += 1;
        }
        let mut items: String = String::new();
        let mut n: usize = 0;
        while n < lines.len()
            invariant
                n <= lines.len(),
                items@ == list_items(lines@.take(n as int)),
            decreases lines.len() - n,
        {
            let ghost before = items@;
            if n > 0 {
                items.append("\n");
            }
            items.append("<li>");
            items.append(lines[n].as_str());
            items.append("</li>");
            proof {
                let now = lines@.take(n + 1);
                assert(now.drop_last() =~= lines@.take(n as int));
                assert(now.last() == lines@[n as int]);
                if n == 0 {
                    assert(before =~= Seq::<char>::empty());
                    assert(now[0] == lines@[0]);
                    assert(items@ =~= "<li>"@ + lines@[0]@ + "</li>"@);
                } else {
                    assert(items@ =~= before + "\n"@ + ("<li>"@ + lines@[n as int]@ + "</li>"@));
                }
            }
            n += 1;
        }
        proof {
            assert(alts@.take(alts@.len() as int) =~= alts@);
            assert(lines@.take(lines@.len() as int) =~= lines@);
        }
        let mut body: String = String::from_str(
            "\n        <html>\n        <body>\n            <p>Here are the spam statistics for ",
        );
        body.append(self.domain.as_str());
        body.append(".</p>\n            ");
        body.append(images.as_str());
        body.append("\n            ");
        body.append("<ul style=\"list-style-type:none;\">");
        body.append(items.as_str());
        body.append("</ul>");
        body.append("\n        </body>\n        </html>\n        ");
        body
    }
}

} // verus!
