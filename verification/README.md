# Metadata Scrub

Removes embedded metadata from photos and videos: JPEG, PNG, WebP, MP4, M4V, MOV and AVI.

`src/` is the library, verified with Verus. A scrub takes the bytes of a file and gives the bytes
without metadata, nothing where there is nothing to remove, or what is wrong with the file.

| Module | What it holds |
|--------|---------------|
| `bytes`, `text` | reading and writing integers, putting texts together |
| `error` | what can be wrong with a file, in words |
| `scrub::jpeg`, `png`, `riff`, `mp4` | the scrubbers, each against a model of its format |
| `scrub::*_laws` | what holds of a file before and after a scrub |
| `scrub` | telling formats apart, and what to write where |
| `scrub::path`, `files`, `job` | which files a job takes in, their order, and the job itself |
| `report`, `cli`, `gui` | what is said, on the command line and in the window |

`app/` is the program: it reads and writes files, walks folders, and draws the window.

## What is removed

- **JPEG**: EXIF, XMP and Photoshop (IPTC) segments, and comments. Color profiles are kept.
- **PNG**: the `eXIf` chunk, and the text chunks that hold XMP, EXIF, IPTC or Photoshop data.
- **WebP**: EXIF and XMP chunks; the flags that announce them are cleared.
- **MP4 / M4V / MOV**: `udta`, `meta`, `keys` and `ilst` boxes of the movie, `udta` and `meta` boxes
  of its tracks, creation and modification times, and XMP.
- **AVI**: INFO lists, dates, and EXIF and XMP chunks.

All else is copied byte by byte, but for the sizes of what holds removed metadata, fill bytes
between JPEG segments, and fewer than eight bytes after the last chunk or box.

Scrubbing a scrubbed file finds nothing more to remove. The laws state this with what it needs:
something must be left of the file, enough to tell its format by (a JPEG file of metadata alone is
no JPEG file afterwards), and in an MP4 file of about a gigabyte or more no `uuid` box too short for
a user type may be followed by bytes that complete the one of XMP, or a size that reads as the mark
of another format.

## Usage

```sh
metadata_scrub                       # open the window
metadata_scrub photo.jpg             # scrub a file in place
metadata_scrub -r ~/Pictures         # a folder and all below it
metadata_scrub -n -r ~/Pictures      # say what would be done, write nothing
metadata_scrub -b photo.jpg          # keep photo.jpg.bak
metadata_scrub -o ~/clean ~/Pictures # write to another folder
```
