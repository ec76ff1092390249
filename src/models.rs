//! Course catalogue records and chat messages.

use vstd::prelude::*;
use vstd::string::StringExecFns;

verus! {

/// A chapter of a course.
#[derive(Clone, Debug)]
pub struct Chapter {
    pub course_id: u32,
    pub chapter_name: String,
    pub chapter_number: u32,
    pub chapter_file_link: String,
}

/// A chapter with its identifier.
#[derive(Clone, Debug)]
pub struct ChapterEntry {
    pub chapter_id: u32,
    pub chapter: Chapter,
}

/// The subject area of a course.
#[derive(Clone, Copy, Debug, PartialEq, Eq, Structural)]
pub enum CourseTopic {
    Technology,
    Business,
    Design,
    Marketing,
    Development,
    Other,
}

/// A course.
#[derive(Clone, Debug)]
pub struct Course {
    pub course_name: String,
    pub course_topics: CourseTopic,
    pub course_slug: String,
    pub course_desc: String,
    pub course_image_link: String,
}

/// A course with its identifier.
#[derive(Clone, Debug)]
pub struct CourseEntry {
    pub course_id: u32,
    pub course: Course,
}

/// A learner's progress in one module.
#[derive(Clone, Copy, Debug, PartialEq, Eq, Structural)]
pub struct ModuleProgress {
    pub module_id: u32,
    pub completed: bool,
    pub last_accessed: u64,
}

/// A lesson of a module.
#[derive(Clone, Debug)]
pub struct Lesson {
    pub title: String,
    pub description: String,
    pub pdf_file: String,
    pub module_id: u32,
}

/// A lesson with its identifier.
#[derive(Clone, Debug)]
pub struct LessonEntry {
    pub lesson_id: u32,
    pub lesson: Lesson,
}

/// A module of a course.
#[derive(Clone, Debug)]
pub struct Module {
    pub title: String,
    pub description: String,
    pub order: u32,
    pub course_id: u32,
}

/// A module with its identifier.
#[derive(Clone, Debug)]
pub struct ModuleEntry {
    pub module_id: u32,
    pub module: Module,
}

/// Who speaks in a chat message.
#[derive(Clone, Copy, Debug, PartialEq, Eq, Structural)]
pub enum ChatRole {
    System,
    User,
}

/// A chat message as the language model takes it.
#[derive(Clone, Debug)]
pub struct ChatMessage {
    pub role: ChatRole,
    pub content: String,
}

/// A chat message as a client sends it, with the role as text.
#[derive(Clone, Debug)]
pub struct ChatRequest {
    pub role: String,
    pub content: String,
}

impl ChatRequest {
    /// The message with its role read: `"system"` is the system role, any
    /// other text the user role.
    pub fn to_chat_message(&self) -> (r: ChatMessage)
        ensures
            r.role == (if self.role@ == "system"@ {
                ChatRole::System
            } else {
                ChatRole::User
            }),
            r.content@ == self.content@,
    {
        let system = String::from_str("system");
        let role = if self.role == system {
            ChatRole::System
        } else {
            ChatRole::User
        };
        ChatMessage { role, content: self.content.clone() }
    }
}

} // verus!
